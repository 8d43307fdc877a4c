//! Checked playlist entries, playlist sets and export intents.
//!
//! A [`PlaylistSet`] owns the flattened presentation order that both the
//! native playlist document and the embedded presentation members follow.
use vstd::prelude::*;
use vstd::slice::slice_subrange;
use crate::document::{
    ApplicationInfo, LocalRelativePath, MusicKeyScale, Playlist, PlaylistChildren, PlaylistDocument,
    PlaylistItem, PlaylistItemType, PlaylistPresentationItem, RelativeFilePath, Url, UrlStorage,
    APPLICATION_PLATFORM_MACOS, APPLICATION_PROPRESENTER, CONTENT_DESTINATION_GLOBAL,
    PLATFORM_MACOS, PLAYLIST_DOCUMENT_TYPE_PRESENTATION, ROOT_SHOW,
};
use crate::macros::{fresh_identity, new_uuid_string};
use crate::naming::{
    linked_filename_of, linked_presentation_filename, presentation_filename, presentation_filename_of,
};
use crate::package::{
    document_summaries, item_summaries, item_summary, node_summaries, nodes_summaries, presentation_items,
    same_summaries, same_summary, PlaylistItemSummary,
};
use crate::native_url::{file_name, file_name_of, file_url, file_url_of, string_views};
use crate::text::{
    any_control, chars_eq, chars_eq_ignore_ascii_case, chars_of, eq_ignore_ascii_case, find_chars,
    find_first, has_control, lemma_split_char_nonempty, opt_view, replace_char, replace_chars,
    split_char, split_chars, string_of, to_lowercase, trim, trim_str, unicode_lowercase, decimal,
    debug_quoted, push_decimal, push_str, str_debug,
};

verus! {

/// A field in the native presentation-item contract owned by a
/// [`PlaylistEntry`].
#[derive(Debug, Clone, Copy, PartialEq, Eq, Structural)]
pub enum PlaylistItemContractField {
    /// Operator-visible playlist item name.
    Name,
    /// Platform attached to the presentation document URL.
    DocumentPlatform,
    /// Absolute `file://` URL attached to the presentation document.
    AbsoluteFileUrl,
    /// Storage oneof must not contain a relative path.
    StorageRelativePath,
    /// Show-relative presentation path.
    LocalRelativePath,
    /// Root used by the show-relative presentation path.
    LocalRelativeRoot,
    /// External-volume relative path.
    ExternalRelativePath,
    /// Selected arrangement UUID.
    ArrangementUuid,
    /// Selected arrangement display name.
    ArrangementName,
    /// User-selected music key and scale.
    UserMusicKey,
    /// Layer destination used when presenting the item.
    ContentDestination,
}

impl PlaylistItemContractField {
    /// The field's operator-facing label.
    pub fn label(&self) -> (s: &'static str)
        ensures
            s@ == field_label(*self),
    {
        match self {
            PlaylistItemContractField::Name => "name",
            PlaylistItemContractField::DocumentPlatform => "document platform",
            PlaylistItemContractField::AbsoluteFileUrl => "absolute file URL",
            PlaylistItemContractField::StorageRelativePath => "storage relative path",
            PlaylistItemContractField::LocalRelativePath => "local relative path",
            PlaylistItemContractField::LocalRelativeRoot => "local relative root",
            PlaylistItemContractField::ExternalRelativePath => "external relative path",
            PlaylistItemContractField::ArrangementUuid => "arrangement UUID",
            PlaylistItemContractField::ArrangementName => "arrangement name",
            PlaylistItemContractField::UserMusicKey => "user music key",
            PlaylistItemContractField::ContentDestination => "content destination",
        }
    }
}

/// The operator-facing label of a contract field.
pub open spec fn field_label(f: PlaylistItemContractField) -> Seq<char> {
    match f {
        PlaylistItemContractField::Name => "name"@,
        PlaylistItemContractField::DocumentPlatform => "document platform"@,
        PlaylistItemContractField::AbsoluteFileUrl => "absolute file URL"@,
        PlaylistItemContractField::StorageRelativePath => "storage relative path"@,
        PlaylistItemContractField::LocalRelativePath => "local relative path"@,
        PlaylistItemContractField::LocalRelativeRoot => "local relative root"@,
        PlaylistItemContractField::ExternalRelativePath => "external relative path"@,
        PlaylistItemContractField::ArrangementUuid => "arrangement UUID"@,
        PlaylistItemContractField::ArrangementName => "arrangement name"@,
        PlaylistItemContractField::UserMusicKey => "user music key"@,
        PlaylistItemContractField::ContentDestination => "content destination"@,
    }
}

// ---------------------------------------------------------------------------
// Exact identities
// ---------------------------------------------------------------------------

/// A non-empty name with no surrounding white space and no control
/// character: an exact identity.
pub open spec fn exact_identity(s: Seq<char>) -> bool {
    trim(s).len() > 0 && trim(s) == s && !has_control(s)
}

/// A name that is trimmed and free of control characters (it may be empty).
pub open spec fn trimmed_and_clean(s: Seq<char>) -> bool {
    trim(s) == s && !has_control(s)
}

fn is_trimmed_and_clean(s: &str) -> (r: bool)
    ensures
        r == trimmed_and_clean(s@),
{
    let t = trim_str(s);
    let tc = chars_of(t.as_str());
    let sc = chars_of(s);
    chars_eq(tc.as_slice(), sc.as_slice()) && !any_control(sc.as_slice())
}

fn is_blank(s: &str) -> (r: bool)
    ensures
        r == (trim(s@).len() == 0),
{
    let t = trim_str(s);
    chars_of(t.as_str()).len() == 0
}

// ---------------------------------------------------------------------------
// Selected arrangements
// ---------------------------------------------------------------------------

/// Errors raised while constructing a selected playlist arrangement.
#[derive(Debug, Clone, Copy, PartialEq, Eq, Structural)]
pub enum SelectedArrangementError {
    /// A selected arrangement must carry its exact native display name.
    EmptyName,
    /// The exact native name cannot contain padding or control characters.
    InvalidName,
}

impl SelectedArrangementError {
    /// The error's message.
    pub fn message(&self) -> (s: &'static str)
        ensures
            s@ == match self {
                SelectedArrangementError::EmptyName => "selected arrangement name cannot be empty"@,
                SelectedArrangementError::InvalidName => "selected arrangement name is not a valid exact identity"@,
            },
    {
        match self {
            SelectedArrangementError::EmptyName => "selected arrangement name cannot be empty",
            SelectedArrangementError::InvalidName => "selected arrangement name is not a valid exact identity",
        }
    }
}

/// The exact native arrangement selected for a playlist item: its identity
/// (a UUID as its 128-bit value) and exact display name.
#[derive(Debug, PartialEq, Eq)]
pub struct SelectedArrangement {
    uuid: u128,
    name: String,
}

impl View for SelectedArrangement {
    type V = (u128, Seq<char>);

    closed spec fn view(&self) -> (u128, Seq<char>) {
        (self.uuid, self.name@)
    }
}

impl SelectedArrangement {
    #[verifier::type_invariant]
    spec fn wf(self) -> bool {
        exact_identity(self.name@)
    }

    /// Bind an arrangement UUID to its exact native name.
    pub fn new(uuid: u128, name: &str) -> (r: Result<SelectedArrangement, SelectedArrangementError>)
        ensures
            match r {
                Ok(a) => a@ == (uuid, name@),
                Err(SelectedArrangementError::EmptyName) => trim(name@).len() == 0,
                Err(SelectedArrangementError::InvalidName) => trim(name@).len() > 0
                    && !trimmed_and_clean(name@),
            },
            r is Ok <==> exact_identity(name@),
    {
        if is_blank(name) {
            return Err(SelectedArrangementError::EmptyName);
        }
        if !is_trimmed_and_clean(name) {
            return Err(SelectedArrangementError::InvalidName);
        }
        Ok(SelectedArrangement { uuid, name: name.to_string() })
    }

    /// Native arrangement UUID, as its 128-bit value.
    pub fn uuid(&self) -> (r: u128)
        ensures
            r == self@.0,
    {
        self.uuid
    }

    /// Exact native arrangement name, including its original casing.
    pub fn name(&self) -> (r: &str)
        ensures
            r@ == self@.1,
            exact_identity(r@),
    {
        proof {
            use_type_invariant(self);
        }
        self.name.as_str()
    }

}

impl Clone for SelectedArrangement {
    fn clone(&self) -> (r: SelectedArrangement)
        ensures
            r@ == self@,
    {
        proof {
            use_type_invariant(self);
        }
        SelectedArrangement { uuid: self.uuid, name: self.name.clone() }
    }
}

// ---------------------------------------------------------------------------
// Playlist entries
// ---------------------------------------------------------------------------

/// Errors raised while constructing a checked playlist entry.
#[derive(Debug)]
pub enum PlaylistEntryError {
    /// The operator-visible name was empty, padded, or contained control characters.
    InvalidName,
    /// The presentation path was not an exact path to a `.pro` document.
    InvalidPresentationPath(String),
    /// Embedded bytes were not a decodable presentation.
    InvalidEmbeddedPresentation {
        /// Playlist item display name.
        name: String,
        /// Why the bytes were refused.
        reason: String,
    },
    /// Selected-arrangement metadata did not resolve uniquely in the
    /// embedded presentation.
    EmbeddedArrangementUnavailable {
        /// Playlist item display name.
        entry_name: String,
        /// Exact selected arrangement UUID.
        arrangement_uuid: u128,
        /// Exact selected arrangement display name.
        arrangement_name: String,
    },
}

/// The plain contents of a [`PlaylistEntryError`].
pub enum PlaylistEntryErrorView {
    /// An invalid name.
    InvalidName,
    /// An invalid presentation path.
    InvalidPresentationPath(Seq<char>),
    /// Undecodable embedded bytes: the name and the reason.
    InvalidEmbeddedPresentation(Seq<char>, Seq<char>),
    /// An unavailable selected arrangement: entry name, UUID, arrangement name.
    EmbeddedArrangementUnavailable(Seq<char>, u128, Seq<char>),
}

impl View for PlaylistEntryError {
    type V = PlaylistEntryErrorView;

    open spec fn view(&self) -> PlaylistEntryErrorView {
        match self {
            PlaylistEntryError::InvalidName => PlaylistEntryErrorView::InvalidName,
            PlaylistEntryError::InvalidPresentationPath(p) => PlaylistEntryErrorView::InvalidPresentationPath(p@),
            PlaylistEntryError::InvalidEmbeddedPresentation { name, reason } => PlaylistEntryErrorView::InvalidEmbeddedPresentation(
                name@,
                reason@,
            ),
            PlaylistEntryError::EmbeddedArrangementUnavailable { entry_name, arrangement_uuid, arrangement_name } => PlaylistEntryErrorView::EmbeddedArrangementUnavailable(
                entry_name@,
                *arrangement_uuid,
                arrangement_name@,
            ),
        }
    }
}

/// Whether a path is an exact path to a `.pro` document: trimmed, free of
/// control characters, with a final `.pro` component.
pub open spec fn valid_presentation_path(p: Seq<char>) -> bool {
    trimmed_and_clean(p) && presentation_filename_of(p) is Some
}

/// The plain contents of an optional selection.
pub open spec fn selection_view(o: Option<SelectedArrangement>) -> Option<(u128, Seq<char>)> {
    match o {
        Some(a) => Some(a@),
        None => None,
    }
}

/// Whether an embedded check failed to decode, for `reason`.
pub open spec fn decode_failed_with(c: Result<bool, String>, reason: Seq<char>) -> bool {
    match c {
        Err(why) => why@ == reason,
        Ok(_) => false,
    }
}

/// A checked native playlist presentation reference.
///
/// Every entry has an exact display name and a path whose final component is
/// a `.pro` document; embedded entries also hold the presentation's bytes.
#[derive(Debug)]
pub struct PlaylistEntry {
    name: String,
    presentation_path: String,
    filename: String,
    embedded: Option<Vec<u8>>,
    selected_arrangement: Option<SelectedArrangement>,
    user_music_key: Option<MusicKeyScale>,
}

/// The plain contents of a playlist entry: name, presentation path, embedded
/// file name, embedded bytes, selected arrangement and music key.
pub type EntryView = (
    Seq<char>,
    Seq<char>,
    Seq<char>,
    Option<Seq<u8>>,
    Option<(u128, Seq<char>)>,
    Option<MusicKeyScale>,
);

impl View for PlaylistEntry {
    type V = EntryView;

    closed spec fn view(&self) -> EntryView {
        (
            self.name@,
            self.presentation_path@,
            self.filename@,
            match self.embedded {
                Some(d) => Some(d@),
                None => None,
            },
            selection_view(self.selected_arrangement),
            self.user_music_key,
        )
    }
}

/// Whether the plain contents are those of a checked entry.
pub open spec fn entry_wf(e: EntryView) -> bool {
    &&& exact_identity(e.0)
    &&& valid_presentation_path(e.1)
    &&& presentation_filename_of(e.1) == Some(e.2)
    &&& match e.4 {
        Some(a) => exact_identity(a.1),
        None => true,
    }
}

impl PlaylistEntry {
    #[verifier::type_invariant]
    spec fn wf(self) -> bool {
        entry_wf(self@)
    }

    fn checked(name: &str, presentation_path: &str, embedded: Option<Vec<u8>>) -> (r: Result<
        PlaylistEntry,
        PlaylistEntryError,
    >)
        ensures
            match r {
                Ok(e) => e@.0 == name@ && e@.1 == presentation_path@ && e@.3 == match embedded {
                    Some(d) => Some(d@),
                    None => None::<Seq<u8>>,
                } && e@.4 is None && e@.5 is None,
                Err(PlaylistEntryError::InvalidName) => !exact_identity(name@),
                Err(PlaylistEntryError::InvalidPresentationPath(p)) => exact_identity(name@)
                    && !valid_presentation_path(presentation_path@) && p@ == presentation_path@,
                Err(_) => false,
            },
            r is Ok <==> exact_identity(name@) && valid_presentation_path(presentation_path@),
    {
        if is_blank(name) || !is_trimmed_and_clean(name) {
            return Err(PlaylistEntryError::InvalidName);
        }
        if !is_trimmed_and_clean(presentation_path) {
            return Err(PlaylistEntryError::InvalidPresentationPath(presentation_path.to_string()));
        }
        let filename = match presentation_filename(presentation_path) {
            Some(f) => f,
            None => return Err(PlaylistEntryError::InvalidPresentationPath(presentation_path.to_string())),
        };
        Ok(PlaylistEntry {
            name: name.to_string(),
            presentation_path: presentation_path.to_string(),
            filename,
            embedded,
            selected_arrangement: None,
            user_music_key: None,
        })
    }

    /// Construct a reference to a presentation that is not embedded.
    pub fn linked(name: &str, presentation_path: &str) -> (r: Result<PlaylistEntry, PlaylistEntryError>)
        ensures
            match r {
                Ok(e) => e@.0 == name@ && e@.1 == presentation_path@ && e@.3 is None && e@.4 is None
                    && e@.5 is None,
                Err(PlaylistEntryError::InvalidName) => !exact_identity(name@),
                Err(PlaylistEntryError::InvalidPresentationPath(p)) => exact_identity(name@)
                    && !valid_presentation_path(presentation_path@) && p@ == presentation_path@,
                Err(_) => false,
            },
            r is Ok <==> exact_identity(name@) && valid_presentation_path(presentation_path@),
    {
        Self::checked(name, presentation_path, None)
    }

    /// Construct a reference whose presentation bytes are embedded.
    /// `decode_failure` is why the bytes failed to decode as an identified
    /// native presentation, or `None` when they decoded.
    pub fn embedded(
        name: &str,
        presentation_path: &str,
        data: Vec<u8>,
        decode_failure: Option<String>,
    ) -> (r: Result<PlaylistEntry, PlaylistEntryError>)
        ensures
            match decode_failure {
                Some(reason) => r matches Err(PlaylistEntryError::InvalidEmbeddedPresentation {
                    name: n,
                    reason: why,
                }) && n@ == name@ && why@ == reason@,
                None => match r {
                    Ok(e) => e@.0 == name@ && e@.1 == presentation_path@ && e@.3 == Some(data@)
                        && e@.4 is None && e@.5 is None,
                    Err(PlaylistEntryError::InvalidName) => !exact_identity(name@),
                    Err(PlaylistEntryError::InvalidPresentationPath(p)) => exact_identity(name@)
                        && !valid_presentation_path(presentation_path@) && p@ == presentation_path@,
                    Err(_) => false,
                },
            },
            r is Ok <==> decode_failure is None && exact_identity(name@) && valid_presentation_path(
                presentation_path@,
            ),
    {
        match decode_failure {
            Some(reason) => Err(PlaylistEntryError::InvalidEmbeddedPresentation { name: name.to_string(), reason }),
            None => Self::checked(name, presentation_path, Some(data)),
        }
    }

    /// Attach exact selected-arrangement metadata. For an embedded entry
    /// with a selection, `embedded_check` is the outcome of decoding its
    /// bytes and looking the selection up: `Ok(true)` when it resolves
    /// uniquely, `Ok(false)` when it does not, `Err(reason)` when the bytes
    /// do not decode. Linked entries keep the reference unchecked.
    pub fn with_selected_arrangement(
        self,
        selected_arrangement: Option<SelectedArrangement>,
        embedded_check: Result<bool, String>,
    ) -> (r: Result<PlaylistEntry, PlaylistEntryError>)
        ensures
            ({
                let checked = self@.3 is Some && selected_arrangement is Some;
                let sel = selection_view(selected_arrangement);
                match r {
                    Ok(e) => e@ == (self@.0, self@.1, self@.2, self@.3, sel, self@.5) && (checked
                        ==> embedded_check == Ok::<bool, String>(true)),
                    Err(PlaylistEntryError::InvalidEmbeddedPresentation { name, reason }) => checked
                        && decode_failed_with(embedded_check, reason@) && name@ == self@.0,
                    Err(PlaylistEntryError::EmbeddedArrangementUnavailable {
                        entry_name,
                        arrangement_uuid,
                        arrangement_name,
                    }) => checked && embedded_check == Ok::<bool, String>(false) && entry_name@
                        == self@.0 && sel == Some((arrangement_uuid, arrangement_name@)),
                    Err(_) => false,
                }
            }),
    {
        proof {
            use_type_invariant(&self);
        }
        if self.embedded.is_some() {
            match &selected_arrangement {
                Some(selected) => {
                    match embedded_check {
                        Err(reason) => {
                            return Err(PlaylistEntryError::InvalidEmbeddedPresentation { name: self.name, reason });
                        },
                        Ok(found) => {
                            if !found {
                                let arrangement_uuid = selected.uuid();
                                let arrangement_name = selected.name().to_string();
                                return Err(
                                    PlaylistEntryError::EmbeddedArrangementUnavailable {
                                        entry_name: self.name,
                                        arrangement_uuid,
                                        arrangement_name,
                                    },
                                );
                            }
                        },
                    }
                },
                None => {},
            }
        }
        match &selected_arrangement {
            Some(a) => {
                proof {
                    use_type_invariant(a);
                }
            },
            None => {},
        }
        let PlaylistEntry { name, presentation_path, filename, embedded, selected_arrangement: _, user_music_key } = self;
        Ok(PlaylistEntry { name, presentation_path, filename, embedded, selected_arrangement, user_music_key })
    }

    /// Attach a source-supplied music key.
    pub fn with_user_music_key(self, user_music_key: Option<MusicKeyScale>) -> (r: PlaylistEntry)
        ensures
            r@ == (self@.0, self@.1, self@.2, self@.3, self@.4, user_music_key),
    {
        proof {
            use_type_invariant(&self);
        }
        let PlaylistEntry { name, presentation_path, filename, embedded, selected_arrangement, user_music_key: _ } = self;
        PlaylistEntry { name, presentation_path, filename, embedded, selected_arrangement, user_music_key }
    }

    /// Convert this checked entry into a linked presentation reference:
    /// only the embedded bytes are dropped.
    pub fn into_linked(self) -> (r: PlaylistEntry)
        ensures
            r@ == (self@.0, self@.1, self@.2, None::<Seq<u8>>, self@.4, self@.5),
    {
        proof {
            use_type_invariant(&self);
        }
        let PlaylistEntry { name, presentation_path, filename, embedded: _, selected_arrangement, user_music_key } = self;
        PlaylistEntry { name, presentation_path, filename, embedded: None, selected_arrangement, user_music_key }
    }

    /// Operator-visible playlist item name.
    pub fn name(&self) -> (r: &str)
        ensures
            r@ == self@.0,
            entry_wf(self@),
    {
        proof {
            use_type_invariant(self);
        }
        self.name.as_str()
    }

    /// Exact native presentation path.
    pub fn presentation_path(&self) -> (r: &str)
        ensures
            r@ == self@.1,
            entry_wf(self@),
    {
        proof {
            use_type_invariant(self);
        }
        self.presentation_path.as_str()
    }

    /// The decoded file name of the presentation path, which names the
    /// embedded archive member.
    pub fn embedded_filename(&self) -> (r: &str)
        ensures
            r@ == self@.2,
            entry_wf(self@),
    {
        proof {
            use_type_invariant(self);
        }
        self.filename.as_str()
    }

    /// Embedded native presentation bytes, when this is an embedded entry.
    pub fn embedded_data(&self) -> (r: Option<&[u8]>)
        ensures
            match r {
                Some(d) => self@.3 == Some(d@),
                None => self@.3 is None,
            },
    {
        match &self.embedded {
            Some(d) => Some(d.as_slice()),
            None => None,
        }
    }

    /// Exact selected arrangement, when one was chosen.
    pub fn selected_arrangement(&self) -> (r: Option<&SelectedArrangement>)
        ensures
            match r {
                Some(a) => self@.4 == Some(a@),
                None => self@.4 is None,
            },
    {
        match &self.selected_arrangement {
            Some(a) => Some(a),
            None => None,
        }
    }

    /// Source-supplied music key, when present.
    pub fn user_music_key(&self) -> (r: Option<MusicKeyScale>)
        ensures
            r == self@.5,
    {
        self.user_music_key
    }
}

impl Clone for PlaylistEntry {
    fn clone(&self) -> (r: PlaylistEntry)
        ensures
            r@ == self@,
    {
        proof {
            use_type_invariant(self);
        }
        let embedded = match &self.embedded {
            Some(d) => {
                let c = d.clone();
                proof {
                    assert(c@ =~= d@);
                }
                Some(c)
            },
            None => None,
        };
        let selected_arrangement = match &self.selected_arrangement {
            Some(a) => Some(a.clone()),
            None => None,
        };
        PlaylistEntry {
            name: self.name.clone(),
            presentation_path: self.presentation_path.clone(),
            filename: self.filename.clone(),
            embedded,
            selected_arrangement,
            user_music_key: self.user_music_key,
        }
    }
}

// ---------------------------------------------------------------------------
// Playlist sets
// ---------------------------------------------------------------------------

/// Errors raised while constructing a bundle with named playlists.
#[derive(Debug, Clone, Copy, PartialEq, Eq, Structural)]
pub enum PlaylistSetError {
    /// A native playlist document must contain at least one child playlist.
    Empty,
    /// A child playlist needs an operator-visible name.
    EmptyName,
    /// A child name cannot contain padding or control characters.
    InvalidName,
}

impl PlaylistSetError {
    /// The error's message.
    pub fn message(&self) -> (s: &'static str)
        ensures
            s@ == match self {
                PlaylistSetError::Empty => "playlist set must contain at least one playlist"@,
                PlaylistSetError::EmptyName => "playlist name cannot be empty"@,
                PlaylistSetError::InvalidName => "playlist name is not a valid exact identity"@,
            },
    {
        match self {
            PlaylistSetError::Empty => "playlist set must contain at least one playlist",
            PlaylistSetError::EmptyName => "playlist name cannot be empty",
            PlaylistSetError::InvalidName => "playlist name is not a valid exact identity",
        }
    }
}

/// One named child in a multi-playlist bundle.
#[derive(Debug)]
pub struct NamedPlaylist {
    name: String,
    entries: Vec<PlaylistEntry>,
}

impl NamedPlaylist {
    #[verifier::type_invariant]
    spec fn wf(self) -> bool {
        exact_identity(self.name@)
    }

    /// The child's name.
    pub closed spec fn name_view(self) -> Seq<char> {
        self.name@
    }

    /// The child's entries.
    pub closed spec fn entries_view(self) -> Seq<PlaylistEntry> {
        self.entries@
    }

    /// Bind a non-empty display name to its ordered presentation entries.
    pub fn new(name: &str, entries: Vec<PlaylistEntry>) -> (r: Result<NamedPlaylist, PlaylistSetError>)
        ensures
            match r {
                Ok(p) => p.name_view() == name@ && p.entries_view() == entries@,
                Err(PlaylistSetError::EmptyName) => trim(name@).len() == 0,
                Err(PlaylistSetError::InvalidName) => trim(name@).len() > 0 && !trimmed_and_clean(name@),
                Err(PlaylistSetError::Empty) => false,
            },
            r is Ok <==> exact_identity(name@),
    {
        if is_blank(name) {
            return Err(PlaylistSetError::EmptyName);
        }
        if !is_trimmed_and_clean(name) {
            return Err(PlaylistSetError::InvalidName);
        }
        Ok(NamedPlaylist { name: name.to_string(), entries })
    }

    /// Native child-playlist name.
    pub fn name(&self) -> (r: &str)
        ensures
            r@ == self.name_view(),
            exact_identity(r@),
    {
        proof {
            use_type_invariant(self);
        }
        self.name.as_str()
    }

    /// Presentation entries in native playlist order.
    pub fn entries(&self) -> (r: &[PlaylistEntry])
        ensures
            r@ == self.entries_view(),
    {
        self.entries.as_slice()
    }
}

/// All entries of named playlists, in order.
pub open spec fn flattened(ps: Seq<NamedPlaylist>) -> Seq<PlaylistEntry>
    decreases ps.len(),
{
    if ps.len() == 0 {
        Seq::empty()
    } else {
        flattened(ps.drop_last()) + ps.last().entries_view()
    }
}

/// The children of named playlists: each name with the range of its
/// entries in the flattened order.
pub open spec fn child_ranges(ps: Seq<NamedPlaylist>) -> Seq<(Seq<char>, int, int)>
    decreases ps.len(),
{
    if ps.len() == 0 {
        Seq::empty()
    } else {
        let before = flattened(ps.drop_last()).len() as int;
        child_ranges(ps.drop_last()).push(
            (ps.last().name_view(), before, before + ps.last().entries_view().len()),
        )
    }
}

#[derive(Debug)]
struct PlaylistChild {
    name: String,
    start: usize,
    end: usize,
}

/// A checked one-level native playlist bundle: at least one named child,
/// each owning a contiguous range of the flattened entries.
#[derive(Debug)]
pub struct PlaylistSet {
    children: Vec<PlaylistChild>,
    entries: Vec<PlaylistEntry>,
}

/// Whether `c` partitions `n` entries into contiguous named ranges.
pub open spec fn partitions(c: Seq<(Seq<char>, int, int)>, n: int) -> bool {
    &&& c.len() > 0
    &&& c[0].1 == 0
    &&& c[c.len() - 1].2 == n
    &&& forall|k: int| 0 <= k < c.len() ==> #[trigger] c[k].1 <= c[k].2
    &&& forall|k: int| 0 <= k < c.len() - 1 ==> #[trigger] c[k].2 == c[k + 1].1
    &&& forall|k: int| 0 <= k < c.len() ==> exact_identity(#[trigger] c[k].0)
}

impl PlaylistSet {
    /// The children: each name with its entry range.
    pub closed spec fn children_view(self) -> Seq<(Seq<char>, int, int)> {
        self.children@.map_values(|c: PlaylistChild| (c.name@, c.start as int, c.end as int))
    }

    /// The flattened entries.
    pub closed spec fn entries_view(self) -> Seq<PlaylistEntry> {
        self.entries@
    }

    #[verifier::type_invariant]
    spec fn wf(self) -> bool {
        partitions(self.children_view(), self.entries@.len() as int)
    }

    /// Build the common one-playlist package.
    pub fn single(name: &str, entries: Vec<PlaylistEntry>) -> (r: Result<PlaylistSet, PlaylistSetError>)
        ensures
            match r {
                Ok(s) => s.children_view() == seq![(name@, 0int, entries@.len() as int)]
                    && s.entries_view() == entries@,
                Err(PlaylistSetError::EmptyName) => trim(name@).len() == 0,
                Err(PlaylistSetError::InvalidName) => trim(name@).len() > 0 && !trimmed_and_clean(name@),
                Err(PlaylistSetError::Empty) => false,
            },
            r is Ok <==> exact_identity(name@),
    {
        let playlist = match NamedPlaylist::new(name, entries) {
            Ok(p) => p,
            Err(e) => return Err(e),
        };
        let ghost one = seq![playlist];
        let v = vec![playlist];
        assert(v@ == one);
        let r = Self::new(v);
        proof {
            reveal_with_fuel(flattened, 2);
            reveal_with_fuel(child_ranges, 2);
            assert(one.drop_last() =~= Seq::<NamedPlaylist>::empty());
            assert(flattened(one) =~= entries@);
            assert(child_ranges(one) =~= seq![(name@, 0int, entries@.len() as int)]);
        }
        r
    }

    /// Normalize named playlists into canonical package order.
    pub fn new(playlists: Vec<NamedPlaylist>) -> (r: Result<PlaylistSet, PlaylistSetError>)
        ensures
            match r {
                Ok(s) => s.children_view() == child_ranges(playlists@) && s.entries_view() == flattened(
                    playlists@,
                ),
                Err(e) => e == PlaylistSetError::Empty && playlists@.len() == 0,
            },
            r is Ok <==> playlists@.len() > 0,
    {
        if playlists.len() == 0 {
            return Err(PlaylistSetError::Empty);
        }
        let ghost all = playlists@;
        let mut rest = playlists;
        let mut children: Vec<PlaylistChild> = Vec::new();
        let mut entries: Vec<PlaylistEntry> = Vec::new();
        let mut taken: usize = 0;
        proof {
            assert(all.take(0) =~= Seq::<NamedPlaylist>::empty());
        }
        while rest.len() > 0
            invariant
                taken + rest@.len() == all.len(),
                all.len() <= usize::MAX,
                rest@ == all.skip(taken as int),
                entries@ == flattened(all.take(taken as int)),
                children@.map_values(|c: PlaylistChild| (c.name@, c.start as int, c.end as int))
                    == child_ranges(all.take(taken as int)),
                forall|k: int| 0 <= k < taken ==> exact_identity(#[trigger] all[k].name_view()),
            decreases rest.len(),
        {
            let p = rest.remove(0);
            proof {
                use_type_invariant(&p);
                assert(p == all[taken as int]);
                assert(exact_identity(all[taken as int].name_view()));
            }
            let NamedPlaylist { name, entries: mut more } = p;
            let start = entries.len();
            entries.append(&mut more);
            let end = entries.len();
            let ghost before = children@;
            children.push(PlaylistChild { name, start, end });
            proof {
                let t = all.take(taken + 1);
                assert(t.drop_last() =~= all.take(taken as int));
                assert(t.last() == all[taken as int]);
                assert(rest@ =~= all.skip(taken + 1));
                assert(children@ == before.push(children@[children@.len() - 1]));
                assert(children@.map_values(|c: PlaylistChild| (c.name@, c.start as int, c.end as int))
                    =~= child_ranges(t));
            }
            taken += 1;
        }
        proof {
            assert(all.take(all.len() as int) =~= all);
            lemma_child_ranges_partition(all);
        }
        Ok(PlaylistSet { children, entries })
    }

    /// Named child playlists and their entry slices, in document order.
    pub fn children(&self) -> (r: Vec<(&str, &[PlaylistEntry])>)
        ensures
            r@.len() == self.children_view().len(),
            forall|k: int| 0 <= k < r@.len() ==> {
                let c = #[trigger] self.children_view()[k];
                r@[k].0@ == c.0 && r@[k].1@ == self.entries_view().subrange(c.1, c.2)
            },
    {
        proof {
            use_type_invariant(self);
        }
        let ghost cv = self.children_view();
        let mut r: Vec<(&str, &[PlaylistEntry])> = Vec::new();
        let mut i: usize = 0;
        while i < self.children.len()
            invariant
                i <= self.children.len(),
                cv == self.children_view(),
                partitions(cv, self.entries@.len() as int),
                r@.len() == i,
                forall|k: int| 0 <= k < i ==> {
                    let c = #[trigger] cv[k];
                    r@[k].0@ == c.0 && r@[k].1@ == self.entries@.subrange(c.1, c.2)
                },
            decreases self.children.len() - i,
        {
            let c = &self.children[i];
            proof {
                assert(cv[i as int] == (c.name@, c.start as int, c.end as int));
                lemma_partition_bounds(cv, self.entries@.len() as int, i as int);
            }
            let slice = slice_subrange(self.entries.as_slice(), c.start, c.end);
            r.push((c.name.as_str(), slice));
            i += 1;
        }
        r
    }

    /// Total presentation references across every child playlist.
    pub fn presentation_count(&self) -> (r: usize)
        ensures
            r == self.entries_view().len(),
    {
        self.entries.len()
    }

    /// The flattened entries, in canonical package order.
    pub fn entries(&self) -> (r: &[PlaylistEntry])
        ensures
            r@ == self.entries_view(),
    {
        self.entries.as_slice()
    }
}

proof fn lemma_partition_bounds(c: Seq<(Seq<char>, int, int)>, n: int, i: int)
    requires
        partitions(c, n),
        0 <= i < c.len(),
    ensures
        0 <= c[i].1 <= c[i].2 <= n,
    decreases c.len() - i,
{
    if i + 1 < c.len() {
        lemma_partition_bounds(c, n, i + 1);
        assert(c[i].2 == c[i + 1].1);
    }
    lemma_partition_start(c, n, i);
}

proof fn lemma_partition_start(c: Seq<(Seq<char>, int, int)>, n: int, i: int)
    requires
        partitions(c, n),
        0 <= i < c.len(),
    ensures
        0 <= c[i].1,
    decreases i,
{
    if i > 0 {
        lemma_partition_start(c, n, i - 1);
        assert(c[i - 1].2 == c[i].1);
        assert(c[i - 1].1 <= c[i - 1].2);
    }
}

proof fn lemma_child_ranges_shape(ps: Seq<NamedPlaylist>)
    ensures
        child_ranges(ps).len() == ps.len(),
        forall|k: int| 0 <= k < ps.len() ==> (#[trigger] child_ranges(ps)[k]).0 == ps[k].name_view(),
        forall|k: int| 0 <= k < ps.len() ==> (#[trigger] child_ranges(ps)[k]).1 == flattened(ps.take(k)).len(),
        forall|k: int| 0 <= k < ps.len() ==> (#[trigger] child_ranges(ps)[k]).2 == flattened(ps.take(k + 1)).len(),
    decreases ps.len(),
{
    if ps.len() > 0 {
        let d = ps.drop_last();
        lemma_child_ranges_shape(d);
        assert forall|k: int| 0 <= k < ps.len() implies (#[trigger] child_ranges(ps)[k]).1 == flattened(ps.take(k)).len()
            && child_ranges(ps)[k].2 == flattened(ps.take(k + 1)).len() by {
            if k < d.len() {
                assert(ps.take(k) =~= d.take(k));
                assert(ps.take(k + 1) =~= d.take(k + 1));
            } else {
                assert(ps.take(k) =~= d);
                assert(ps.take(k + 1) =~= ps);
            }
        }
    }
}

proof fn lemma_child_ranges_partition(ps: Seq<NamedPlaylist>)
    requires
        ps.len() > 0,
        forall|k: int| 0 <= k < ps.len() ==> exact_identity(#[trigger] ps[k].name_view()),
    ensures
        partitions(child_ranges(ps), flattened(ps).len() as int),
{
    lemma_child_ranges_shape(ps);
    let c = child_ranges(ps);
    assert(ps.take(0) =~= Seq::<NamedPlaylist>::empty());
    assert(ps.take(ps.len() as int) =~= ps);
    assert forall|k: int| 0 <= k < c.len() implies #[trigger] c[k].1 <= c[k].2 by {
        let t = ps.take(k + 1);
        assert(t.drop_last() =~= ps.take(k));
    }
    assert forall|k: int| 0 <= k < c.len() - 1 implies #[trigger] c[k].2 == c[k + 1].1 by {
        assert(c[k + 1].1 == flattened(ps.take(k + 1)).len());
    }
    assert forall|k: int| 0 <= k < c.len() implies exact_identity(#[trigger] c[k].0) by {
        assert(c[k].0 == ps[k].name_view());
    }
}

// ---------------------------------------------------------------------------
// Producer metadata
// ---------------------------------------------------------------------------

/// Errors raised while capturing native playlist producer metadata.
#[derive(Debug, Clone, Copy, PartialEq, Eq, Structural)]
pub enum PlaylistMetadataError {
    /// A playlist document omitted producer metadata required for a native file.
    MissingApplicationInfo,
    /// Playlist item URLs and package semantics are implemented for macOS only.
    UnsupportedPlatform {
        /// Raw enum value supplied by the document.
        platform: i32,
    },
    /// Only ProPresenter documents are reconstructed.
    UnsupportedApplication {
        /// Raw enum value supplied by the document.
        application: i32,
    },
}

/// Immutable producer metadata captured from the live playlist library.
#[derive(Debug)]
pub struct PlaylistMetadata {
    application_info: ApplicationInfo,
}

impl PlaylistMetadata {
    /// The captured producer metadata.
    pub closed spec fn info(self) -> ApplicationInfo {
        self.application_info
    }

    /// Producer metadata captured from the live playlist library.
    pub fn application_info(&self) -> (r: &ApplicationInfo)
        ensures
            *r == self.info(),
    {
        &self.application_info
    }

    /// Capture producer metadata from an already decoded native document:
    /// it must name ProPresenter on macOS.
    pub fn from_document(document: &PlaylistDocument) -> (r: Result<PlaylistMetadata, PlaylistMetadataError>)
        ensures
            match document.application_info {
                None => r == Err::<PlaylistMetadata, PlaylistMetadataError>(
                    PlaylistMetadataError::MissingApplicationInfo,
                ),
                Some(info) => if info.platform != APPLICATION_PLATFORM_MACOS {
                    r == Err::<PlaylistMetadata, PlaylistMetadataError>(
                        PlaylistMetadataError::UnsupportedPlatform { platform: info.platform },
                    )
                } else if info.application != APPLICATION_PROPRESENTER {
                    r == Err::<PlaylistMetadata, PlaylistMetadataError>(
                        PlaylistMetadataError::UnsupportedApplication { application: info.application },
                    )
                } else {
                    r matches Ok(m) && m.info() == info
                },
            },
    {
        let info = match &document.application_info {
            Some(info) => info.clone(),
            None => return Err(PlaylistMetadataError::MissingApplicationInfo),
        };
        if info.platform != APPLICATION_PLATFORM_MACOS {
            return Err(PlaylistMetadataError::UnsupportedPlatform { platform: info.platform });
        }
        if info.application != APPLICATION_PROPRESENTER {
            return Err(PlaylistMetadataError::UnsupportedApplication { application: info.application });
        }
        Ok(PlaylistMetadata { application_info: info })
    }
}

// ---------------------------------------------------------------------------
// Export intents
// ---------------------------------------------------------------------------

/// A media asset to include in an exported portable playlist package.
#[derive(Debug)]
pub struct PlaylistMediaAsset {
    /// Source media file on disk.
    pub source_path: String,
    /// Optional confined archive entry path.
    pub archive_path: Option<String>,
}

impl PlaylistMediaAsset {
    /// Use the canonical absolute source path as native archive identity.
    pub fn new(source_path: &str) -> (r: PlaylistMediaAsset)
        ensures
            r.source_path@ == source_path@,
            r.archive_path is None,
    {
        PlaylistMediaAsset { source_path: source_path.to_string(), archive_path: None }
    }

    /// A copy of this asset.
    pub fn duplicate(&self) -> (r: PlaylistMediaAsset)
        ensures
            r.source_path@ == self.source_path@,
            opt_view(r.archive_path) == opt_view(self.archive_path),
    {
        PlaylistMediaAsset {
            source_path: self.source_path.clone(),
            archive_path: match &self.archive_path {
                Some(p) => Some(p.clone()),
                None => None,
            },
        }
    }
}

/// Portable media whose identity and bytes were bound during review.
#[derive(Debug)]
pub struct ReviewedPlaylistMediaAsset {
    /// The archive member path.
    pub archive_path: String,
    /// The captured bytes.
    pub data: Vec<u8>,
}

/// Operator-facing playlist export behaviour.
#[derive(Debug, Clone, Copy, PartialEq, Eq, Structural)]
pub enum PlaylistExportMode {
    /// Reference presentations already installed in the selected library.
    LibraryLinks,
    /// Embed presentations and every reviewed, resolvable media dependency.
    PortableImport,
}

impl Default for PlaylistExportMode {
    fn default() -> (m: PlaylistExportMode)
        ensures
            m == PlaylistExportMode::PortableImport,
    {
        PlaylistExportMode::PortableImport
    }
}

impl PlaylistExportMode {
    /// The mode's serialized name.
    pub fn serialized_name(&self) -> (s: &'static str)
        ensures
            s@ == match self {
                PlaylistExportMode::LibraryLinks => "library_local"@,
                PlaylistExportMode::PortableImport => "export_portable"@,
            },
    {
        match self {
            PlaylistExportMode::LibraryLinks => "library_local",
            PlaylistExportMode::PortableImport => "export_portable",
        }
    }

    /// The mode a serialized name or its alias denotes.
    pub fn from_serialized_name(s: &str) -> (r: Option<PlaylistExportMode>)
        ensures
            r == if s@ == "library_local"@ || s@ == "library_links"@ {
                Some(PlaylistExportMode::LibraryLinks)
            } else if s@ == "export_portable"@ || s@ == "portable_import"@ {
                Some(PlaylistExportMode::PortableImport)
            } else {
                None
            },
    {
        let c = chars_of(s);
        if chars_eq(c.as_slice(), chars_of("library_local").as_slice()) || chars_eq(
            c.as_slice(),
            chars_of("library_links").as_slice(),
        ) {
            Some(PlaylistExportMode::LibraryLinks)
        } else if chars_eq(c.as_slice(), chars_of("export_portable").as_slice()) || chars_eq(
            c.as_slice(),
            chars_of("portable_import").as_slice(),
        ) {
            Some(PlaylistExportMode::PortableImport)
        } else {
            None
        }
    }
}

/// Requested behaviour when writing a playlist package.
#[derive(Debug)]
pub enum PlaylistExportIntent {
    /// Write presentation links only, suitable for the current local library.
    LibraryLinks,
    /// Embed available presentations and every resolvable native media dependency.
    PortableImport {
        /// Additional media members beyond dependencies discovered from presentations.
        additional_media_assets: Vec<PlaylistMediaAsset>,
    },
}

impl PlaylistExportIntent {
    /// Construct a local-library link package.
    pub fn library_links() -> (r: PlaylistExportIntent)
        ensures
            r is LibraryLinks,
    {
        PlaylistExportIntent::LibraryLinks
    }

    /// Construct a portable import whose presentation dependencies are discovered.
    pub fn portable_import(additional_media_assets: Vec<PlaylistMediaAsset>) -> (r: PlaylistExportIntent)
        ensures
            r matches PlaylistExportIntent::PortableImport { additional_media_assets: a } && a@
                == additional_media_assets@,
    {
        PlaylistExportIntent::PortableImport { additional_media_assets }
    }

    /// Operator-facing mode represented by this intent.
    pub fn mode(&self) -> (m: PlaylistExportMode)
        ensures
            m == match self {
                PlaylistExportIntent::LibraryLinks => PlaylistExportMode::LibraryLinks,
                PlaylistExportIntent::PortableImport { .. } => PlaylistExportMode::PortableImport,
            },
    {
        match self {
            PlaylistExportIntent::LibraryLinks => PlaylistExportMode::LibraryLinks,
            PlaylistExportIntent::PortableImport { .. } => PlaylistExportMode::PortableImport,
        }
    }

    /// Additional media owned by a portable import; none for links.
    pub fn media_assets(&self) -> (r: &[PlaylistMediaAsset])
        ensures
            r@ == match self {
                PlaylistExportIntent::LibraryLinks => Seq::<PlaylistMediaAsset>::empty(),
                PlaylistExportIntent::PortableImport { additional_media_assets } => additional_media_assets@,
            },
    {
        match self {
            PlaylistExportIntent::LibraryLinks => &[],
            PlaylistExportIntent::PortableImport { additional_media_assets } => additional_media_assets.as_slice(),
        }
    }
}

impl Default for PlaylistExportIntent {
    fn default() -> (r: PlaylistExportIntent)
        ensures
            r matches PlaylistExportIntent::PortableImport { additional_media_assets: a } && a@.len() == 0,
    {
        Self::portable_import(Vec::new())
    }
}

/// Export behaviour whose portable media bytes were captured at review time.
#[derive(Debug, Clone, Copy)]
pub enum ReviewedPlaylistExportIntent<'a> {
    /// Write presentation links only.
    LibraryLinks,
    /// Embed presentations and the reviewed media.
    PortableImport(&'a [ReviewedPlaylistMediaAsset]),
}


// ---------------------------------------------------------------------------
// Errors of package writing
// ---------------------------------------------------------------------------

/// The part of a written package that read back differently from its plan.
#[derive(Debug, Clone, Copy, PartialEq, Eq, Structural)]
pub enum PackageReadbackField {
    /// The `data` member bytes.
    Document,
    /// The presentation items of the decoded document.
    Items,
    /// The sorted member names.
    ArchiveOrder,
    /// The bytes of a planned member.
    MemberBytes,
    /// The archive comment.
    ArchiveComment,
}

/// Errors that can occur when writing playlist packages.
#[derive(Debug)]
pub enum PlaylistError {
    /// A checked playlist set could not be constructed.
    PlaylistSet(PlaylistSetError),
    /// A playlist entry could not be constructed without violating its invariants.
    Entry(PlaylistEntryError),
    /// An I/O error occurred during file operations.
    Io(String),
    /// Failed to encode the playlist data.
    Encode(String),
    /// A zip archive error occurred.
    Zip(String),
    /// A media asset path could not be represented inside the package.
    InvalidMediaAsset(String),
    /// An archive entry path was unsafe or not canonical.
    InvalidArchivePath(String),
    /// Two package members resolved to the same archive path.
    DuplicateArchiveEntry(String),
    /// The playlist document and supplied package entries disagree.
    PackageMismatch(String),
    /// One presentation item field disagreed with its checked package entry.
    PackageItemMismatch {
        /// Zero-based presentation item index in canonical document order.
        index: usize,
        /// Checked operator-visible entry name.
        name: String,
        /// Exact native field that violated the entry contract.
        field: PlaylistItemContractField,
    },
    /// Embedded bytes were not a decodable presentation.
    InvalidEmbeddedPresentation {
        /// Zero-based playlist item index.
        index: usize,
        /// Playlist item display name.
        name: String,
        /// Why the bytes were refused.
        reason: String,
    },
    /// A discovered media reference could not be resolved to a local file.
    UnresolvedMediaDependency {
        /// Playlist item display name.
        name: String,
        /// URL or path stored in the presentation.
        reference: String,
    },
    /// A discovered media reference resolved to a file that does not exist.
    MissingMediaDependency {
        /// Playlist item display name.
        name: String,
        /// Resolved local path.
        path: String,
    },
    /// A discovered native dependency was assigned a non-native archive identity.
    MediaDependencyArchiveOverride {
        /// Playlist item display name.
        name: String,
        /// Canonical dependency source path.
        path: String,
        /// Conflicting caller-supplied archive member path.
        archive_path: String,
    },
    /// One source presentation was supplied with different embedded bytes.
    ConflictingEmbeddedSource {
        /// Presentation path used as the shared source identity.
        presentation_path: String,
        /// Index of the first embedded copy.
        first_index: usize,
        /// Index of the conflicting embedded copy.
        conflicting_index: usize,
    },
    /// Two distinct presentation sources would occupy the same archive member.
    DuplicateEmbeddedPresentationBasename {
        /// Basename claimed by the first source.
        basename: String,
        /// First presentation source path claiming the basename.
        first_presentation_path: String,
        /// Conflicting presentation source path claiming the basename.
        conflicting_presentation_path: String,
    },
    /// A written package did not read back as planned.
    PackageReadbackMismatch {
        /// The part that differed.
        field: PackageReadbackField,
        /// What differed.
        details: String,
    },
}

/// The plain contents of a [`PlaylistError`] that the library produces.
pub enum PlaylistErrorView {
    /// A set error.
    PlaylistSet(PlaylistSetError),
    /// An entry error.
    Entry(PlaylistEntryErrorView),
    /// An I/O error.
    Io(Seq<char>),
    /// An encoding error.
    Encode(Seq<char>),
    /// A zip error.
    Zip(Seq<char>),
    /// An unrepresentable media asset, by its source path.
    InvalidMediaAsset(Seq<char>),
    /// An invalid archive path.
    InvalidArchivePath(Seq<char>),
    /// A duplicate archive path.
    DuplicateArchiveEntry(Seq<char>),
    /// A document/entry mismatch, by its message.
    PackageMismatch(Seq<char>),
    /// An item field mismatch.
    PackageItemMismatch(int, Seq<char>, PlaylistItemContractField),
    /// An invalid embedded presentation.
    InvalidEmbeddedPresentation(int, Seq<char>, Seq<char>),
    /// An unresolved media dependency.
    UnresolvedMediaDependency(Seq<char>, Seq<char>),
    /// A missing media dependency.
    MissingMediaDependency(Seq<char>, Seq<char>),
    /// An overridden media dependency archive path.
    MediaDependencyArchiveOverride(Seq<char>, Seq<char>, Seq<char>),
    /// Conflicting embedded bytes for one source.
    ConflictingEmbeddedSource(Seq<char>, int, int),
    /// A duplicate embedded basename.
    DuplicateEmbeddedPresentationBasename(Seq<char>, Seq<char>, Seq<char>),
    /// A read-back mismatch.
    PackageReadbackMismatch(PackageReadbackField, Seq<char>),
}

impl View for PlaylistError {
    type V = PlaylistErrorView;

    open spec fn view(&self) -> PlaylistErrorView {
        match self {
            PlaylistError::PlaylistSet(e) => PlaylistErrorView::PlaylistSet(*e),
            PlaylistError::Entry(e) => PlaylistErrorView::Entry(e@),
            PlaylistError::Io(m) => PlaylistErrorView::Io(m@),
            PlaylistError::Encode(m) => PlaylistErrorView::Encode(m@),
            PlaylistError::Zip(m) => PlaylistErrorView::Zip(m@),
            PlaylistError::InvalidMediaAsset(p) => PlaylistErrorView::InvalidMediaAsset(p@),
            PlaylistError::InvalidArchivePath(p) => PlaylistErrorView::InvalidArchivePath(p@),
            PlaylistError::DuplicateArchiveEntry(p) => PlaylistErrorView::DuplicateArchiveEntry(p@),
            PlaylistError::PackageMismatch(m) => PlaylistErrorView::PackageMismatch(m@),
            PlaylistError::PackageItemMismatch { index, name, field } => PlaylistErrorView::PackageItemMismatch(
                *index as int,
                name@,
                *field,
            ),
            PlaylistError::InvalidEmbeddedPresentation { index, name, reason } => PlaylistErrorView::InvalidEmbeddedPresentation(
                *index as int,
                name@,
                reason@,
            ),
            PlaylistError::UnresolvedMediaDependency { name, reference } => PlaylistErrorView::UnresolvedMediaDependency(
                name@,
                reference@,
            ),
            PlaylistError::MissingMediaDependency { name, path } => PlaylistErrorView::MissingMediaDependency(
                name@,
                path@,
            ),
            PlaylistError::MediaDependencyArchiveOverride { name, path, archive_path } => PlaylistErrorView::MediaDependencyArchiveOverride(
                name@,
                path@,
                archive_path@,
            ),
            PlaylistError::ConflictingEmbeddedSource { presentation_path, first_index, conflicting_index } => PlaylistErrorView::ConflictingEmbeddedSource(
                presentation_path@,
                *first_index as int,
                *conflicting_index as int,
            ),
            PlaylistError::DuplicateEmbeddedPresentationBasename {
                basename,
                first_presentation_path,
                conflicting_presentation_path,
            } => PlaylistErrorView::DuplicateEmbeddedPresentationBasename(
                basename@,
                first_presentation_path@,
                conflicting_presentation_path@,
            ),
            PlaylistError::PackageReadbackMismatch { field, details } => PlaylistErrorView::PackageReadbackMismatch(
                *field,
                details@,
            ),
        }
    }
}

// ---------------------------------------------------------------------------
// Presentation document paths
// ---------------------------------------------------------------------------

/// The show-relative locator written for a presentation path: the suffix
/// from its first `Libraries/`, else its file name.
pub open spec fn presentation_relative_path(path: Seq<char>) -> Option<Seq<char>> {
    match find_first(path, "Libraries/"@) {
        Some(i) => Some(path.skip(i)),
        None => file_name_of(path),
    }
}

fn suffix_from(s: &Vec<char>, i: usize) -> (r: Vec<char>)
    requires
        i <= s.len(),
    ensures
        r@ == s@.skip(i as int),
{
    let mut r: Vec<char> = Vec::new();
    let mut k = i;
    while k < s.len()
        invariant
            i <= k <= s.len(),
            r@ == s@.subrange(i as int, k as int),
        decreases s.len() - k,
    {
        r.push(s[k]);
        k += 1;
    }
    r
}

/// The absolute `file://` string and the show-relative locator of a
/// presentation path, as a native playlist item records them.
pub fn document_path_for_presentation_path(path: &str) -> (r: (String, Option<RelativeFilePath>))
    ensures
        r.0@ == file_url_of(path@),
        match presentation_relative_path(path@) {
            Some(p) => r.1 matches Some(RelativeFilePath::Local(l)) && l.root == ROOT_SHOW && l.path@ == p,
            None => r.1 is None,
        },
{
    proof {
        reveal_strlit("Libraries/");
    }
    let pc = chars_of(path);
    let marker = chars_of("Libraries/");
    let rel: Option<Vec<char>> = match find_chars(pc.as_slice(), marker.as_slice()) {
        Some(i) => Some(suffix_from(&pc, i)),
        None => file_name(pc.as_slice()),
    };
    let relative = match rel {
        Some(r) => Some(RelativeFilePath::Local(LocalRelativePath { root: ROOT_SHOW, path: string_of(r.as_slice()) })),
        None => None,
    };
    (file_url(path), relative)
}

// ---------------------------------------------------------------------------
// Archive member paths
// ---------------------------------------------------------------------------

/// Whether a character is an ASCII letter.
pub open spec fn is_ascii_alpha(c: char) -> bool {
    ('a' <= c && c <= 'z') || ('A' <= c && c <= 'Z')
}

/// Whether a path begins with a Windows drive prefix such as `C:`.
pub open spec fn has_windows_drive_prefix(p: Seq<char>) -> bool {
    p.len() >= 2 && is_ascii_alpha(p[0]) && p[1] == ':'
}

/// Whether a path component is empty, `.` or `..`.
pub open spec fn bad_component(c: Seq<char>) -> bool {
    c.len() == 0 || c == seq!['.'] || c == seq!['.', '.']
}

/// A path with backslashes turned into slashes.
pub open spec fn normalized_archive_path(p: Seq<char>) -> Seq<char> {
    replace_char(p, '\\', '/')
}

/// Whether a normalized path is a safe, canonical archive member path.
pub open spec fn archive_path_ok(n: Seq<char>, allow_directories: bool) -> bool {
    let parts = split_char(n, '/');
    &&& n.len() > 0
    &&& n[0] != '/'
    &&& n.last() != '/'
    &&& !has_windows_drive_prefix(n)
    &&& forall|k: int| 0 <= k < parts.len() ==> !bad_component(#[trigger] parts[k])
    &&& !has_control(n)
    &&& (allow_directories || parts.len() == 1)
}

/// The archive member path a requested path validates to.
pub open spec fn validated_archive_path(p: Seq<char>, allow_directories: bool) -> Result<Seq<char>, PlaylistErrorView> {
    if archive_path_ok(normalized_archive_path(p), allow_directories) {
        Ok(normalized_archive_path(p))
    } else {
        Err(PlaylistErrorView::InvalidArchivePath(p))
    }
}

fn is_bad_component(c: &Vec<char>) -> (r: bool)
    ensures
        r == bad_component(c@),
{
    if c.len() == 0 {
        return true;
    }
    if c.len() == 1 {
        let r = c[0] == '.';
        proof {
            if !r {
                assert(c@ != seq!['.']);
            } else {
                assert(c@ =~= seq!['.']);
            }
        }
        return r;
    }
    if c.len() == 2 {
        let r = c[0] == '.' && c[1] == '.';
        proof {
            if !r {
                assert(c@ != seq!['.', '.']);
            } else {
                assert(c@ =~= seq!['.', '.']);
            }
        }
        return r;
    }
    false
}

/// Check and normalize an archive member path.
pub fn validate_archive_path(path: &str, allow_directories: bool) -> (r: Result<String, PlaylistError>)
    ensures
        match r {
            Ok(n) => validated_archive_path(path@, allow_directories) == Ok::<Seq<char>, PlaylistErrorView>(n@),
            Err(e) => validated_archive_path(path@, allow_directories) == Err::<Seq<char>, PlaylistErrorView>(e@),
        },
{
    let pc = chars_of(path);
    let n = replace_chars(pc.as_slice(), '\\', '/');
    let parts = split_chars(n.as_slice(), '/');
    let ghost pv = parts@.map_values(|p: Vec<char>| p@);
    let mut components_ok = true;
    let mut i: usize = 0;
    while i < parts.len()
        invariant
            i <= parts.len(),
            pv == parts@.map_values(|p: Vec<char>| p@),
            components_ok == forall|k: int| 0 <= k < i ==> !bad_component(#[trigger] pv[k]),
        decreases parts.len() - i,
    {
        if is_bad_component(&parts[i]) {
            components_ok = false;
        }
        proof {
            assert(pv[i as int] == parts@[i as int]@);
        }
        i += 1;
    }
    let ok = n.len() > 0 && n[0] != '/' && n[n.len() - 1] != '/' && !(n.len() >= 2 && is_ascii_alpha_char(n[0])
        && n[1] == ':') && components_ok && !any_control(n.as_slice()) && (allow_directories
        || parts.len() == 1);
    proof {
        assert(pv.len() == parts@.len());
    }
    if ok {
        Ok(string_of(n.as_slice()))
    } else {
        Err(PlaylistError::InvalidArchivePath(path.to_string()))
    }
}

fn is_ascii_alpha_char(c: char) -> (r: bool)
    ensures
        r == is_ascii_alpha(c),
{
    ('a' <= c && c <= 'z') || ('A' <= c && c <= 'Z')
}

/// Whether the final `/` segment of a path ends in `.pro`, ignoring ASCII
/// case.
pub open spec fn names_presentation(path: Seq<char>) -> bool {
    let last = split_char(path, '/').last();
    last.len() >= 4 && eq_ignore_ascii_case(last.skip(last.len() - 4), seq!['.', 'p', 'r', 'o'])
}

/// Refuse a media archive path whose file name is a presentation.
pub fn reject_presentation_media_path(path: &str) -> (r: Result<(), PlaylistError>)
    ensures
        match r {
            Ok(()) => !names_presentation(path@),
            Err(e) => names_presentation(path@) && e@ == PlaylistErrorView::InvalidArchivePath(path@),
        },
{
    let pc = chars_of(path);
    let parts = split_chars(pc.as_slice(), '/');
    proof {
        lemma_split_char_nonempty(pc@, '/');
    }
    let last = &parts[parts.len() - 1];
    proof {
        assert(last@ == split_char(path@, '/').last());
    }
    if last.len() >= 4 {
        let tail = suffix_from(last, last.len() - 4);
        let pro = vec!['.', 'p', 'r', 'o'];
        if chars_eq_ignore_ascii_case(tail.as_slice(), pro.as_slice()) {
            return Err(PlaylistError::InvalidArchivePath(path.to_string()));
        }
    }
    Ok(())
}

/// Reserve the case-folded form of an archive path in `reserved`.
pub fn reserve_archive_path(reserved: &mut Vec<String>, archive_path: &str) -> (r: Result<(), PlaylistError>)
    ensures
        ({
            let key = unicode_lowercase(archive_path@);
            if string_views(old(reserved)@).contains(key) {
                &&& r matches Err(e)
                &&& e@ == PlaylistErrorView::DuplicateArchiveEntry(archive_path@)
                &&& string_views(final(reserved)@) == string_views(old(reserved)@)
            } else {
                &&& r is Ok
                &&& string_views(final(reserved)@) == string_views(old(reserved)@).push(key)
            }
        }),
{
    let key = to_lowercase(archive_path);
    let kc = chars_of(key.as_str());
    let ghost rv = string_views(reserved@);
    let mut i: usize = 0;
    while i < reserved.len()
        invariant
            i <= reserved.len(),
            rv == string_views(reserved@),
            kc@ == unicode_lowercase(archive_path@),
            forall|k: int| 0 <= k < i ==> rv[k] != kc@,
        decreases reserved.len() - i,
    {
        let e = chars_of(reserved[i].as_str());
        if chars_eq(e.as_slice(), kc.as_slice()) {
            proof {
                assert(rv[i as int] == kc@);
                assert(rv.contains(kc@));
            }
            return Err(PlaylistError::DuplicateArchiveEntry(archive_path.to_string()));
        }
        i += 1;
    }
    proof {
        assert(!rv.contains(kc@));
    }
    reserved.push(key);
    proof {
        assert(string_views(reserved@) =~= rv.push(kc@));
    }
    Ok(())
}

// ---------------------------------------------------------------------------
// Media asset identities
// ---------------------------------------------------------------------------

/// The plain contents of a media asset: source path and requested archive
/// path.
pub open spec fn asset_view(a: PlaylistMediaAsset) -> (Seq<char>, Option<Seq<char>>) {
    (a.source_path@, opt_view(a.archive_path))
}

/// The archive member of a media asset: its requested archive path when one
/// is given and not blank, else its canonical source path with slashes.
pub open spec fn media_archive_path_of(a: (Seq<char>, Option<Seq<char>>), canonical: Seq<char>) -> Result<
    Seq<char>,
    PlaylistErrorView,
> {
    if a.1 is Some && trim(a.1->0).len() > 0 {
        validated_archive_path(a.1->0, true)
    } else if has_control(canonical) {
        Err(PlaylistErrorView::InvalidMediaAsset(a.0))
    } else {
        Ok(replace_char(canonical, '\\', '/'))
    }
}

/// Resolve the archive member of a media asset, given the canonical form
/// of its source path.
pub fn media_archive_path(asset: &PlaylistMediaAsset, canonical_source: &str) -> (r: Result<String, PlaylistError>)
    ensures
        match r {
            Ok(p) => media_archive_path_of(asset_view(*asset), canonical_source@) == Ok::<
                Seq<char>,
                PlaylistErrorView,
            >(p@),
            Err(e) => media_archive_path_of(asset_view(*asset), canonical_source@) == Err::<
                Seq<char>,
                PlaylistErrorView,
            >(e@),
        },
{
    match &asset.archive_path {
        Some(p) => {
            if !is_blank(p.as_str()) {
                return validate_archive_path(p.as_str(), true);
            }
        },
        None => {},
    }
    let cc = chars_of(canonical_source);
    if any_control(cc.as_slice()) {
        return Err(PlaylistError::InvalidMediaAsset(asset.source_path.clone()));
    }
    Ok(string_of(replace_chars(cc.as_slice(), '\\', '/').as_slice()))
}

/// The reviewed archive members of the first `n` media assets, with the
/// case-folded paths reserved so far (the document member `data` first), or
/// the first failure.
pub open spec fn reviewed_paths(
    assets: Seq<(Seq<char>, Option<Seq<char>>)>,
    canonical: Seq<Seq<char>>,
    n: int,
) -> Result<(Seq<Seq<char>>, Seq<Seq<char>>), PlaylistErrorView>
    decreases n,
{
    if n <= 0 {
        Ok((Seq::empty(), seq![seq!['d', 'a', 't', 'a']]))
    } else {
        match reviewed_paths(assets, canonical, n - 1) {
            Err(e) => Err(e),
            Ok(state) => match media_archive_path_of(assets[n - 1], canonical[n - 1]) {
                Err(e) => Err(e),
                Ok(p) => if names_presentation(p) {
                    Err(PlaylistErrorView::InvalidArchivePath(p))
                } else if state.1.contains(unicode_lowercase(p)) {
                    Err(PlaylistErrorView::DuplicateArchiveEntry(p))
                } else {
                    Ok((state.0.push(p), state.1.push(unicode_lowercase(p))))
                },
            },
        }
    }
}

proof fn lemma_reviewed_err_persists(
    assets: Seq<(Seq<char>, Option<Seq<char>>)>,
    canonical: Seq<Seq<char>>,
    k: int,
    n: int,
)
    requires
        1 <= k <= n,
        reviewed_paths(assets, canonical, k) is Err,
    ensures
        reviewed_paths(assets, canonical, n) == reviewed_paths(assets, canonical, k),
    decreases n - k,
{
    if n > k {
        lemma_reviewed_err_persists(assets, canonical, k, n - 1);
    }
}

/// The asset views of media assets.
pub open spec fn asset_views(s: Seq<PlaylistMediaAsset>) -> Seq<(Seq<char>, Option<Seq<char>>)> {
    s.map_values(|a: PlaylistMediaAsset| asset_view(a))
}

/// Check the archive identities of portable media before any bytes are
/// read: each resolves, is not a presentation, and is unique ignoring case
/// (the document member `data` is reserved). `canonical_sources[i]` is the
/// canonical form of asset `i`'s source path.
pub fn reviewed_media_archive_paths(
    assets: &[PlaylistMediaAsset],
    canonical_sources: &[String],
) -> (r: Result<Vec<String>, PlaylistError>)
    requires
        assets.len() == canonical_sources.len(),
    ensures
        match r {
            Ok(paths) => reviewed_paths(asset_views(assets@), string_views(canonical_sources@), assets.len() as int)
                matches Ok(state) && string_views(paths@) == state.0,
            Err(e) => reviewed_paths(asset_views(assets@), string_views(canonical_sources@), assets.len() as int)
                == Err::<(Seq<Seq<char>>, Seq<Seq<char>>), PlaylistErrorView>(e@),
        },
{
    let ghost av = asset_views(assets@);
    let ghost cv = string_views(canonical_sources@);
    let member = "data".to_string();
    let mut reserved: Vec<String> = Vec::new();
    reserved.push(member);
    let mut paths: Vec<String> = Vec::new();
    proof {
        reveal_strlit("data");
        assert("data"@ =~= seq!['d', 'a', 't', 'a']);
        assert(reserved@[0]@ == "data"@);
        assert(string_views(reserved@) =~= seq![seq!['d', 'a', 't', 'a']]);
        assert(string_views(paths@) =~= Seq::<Seq<char>>::empty());
    }
    let mut i: usize = 0;
    while i < assets.len()
        invariant
            i <= assets.len(),
            assets.len() == canonical_sources.len(),
            av == asset_views(assets@),
            cv == string_views(canonical_sources@),
            reviewed_paths(av, cv, i as int) == Ok::<(Seq<Seq<char>>, Seq<Seq<char>>), PlaylistErrorView>(
                (string_views(paths@), string_views(reserved@)),
            ),
        decreases assets.len() - i,
    {
        proof {
            assert(av[i as int] == asset_view(assets@[i as int]));
            assert(cv[i as int] == canonical_sources@[i as int]@);
        }
        let bound = match media_archive_path(&assets[i], canonical_sources[i].as_str()) {
            Ok(p) => p,
            Err(e) => {
                proof {
                    lemma_reviewed_err_persists(av, cv, i + 1, assets.len() as int);
                }
                return Err(e);
            },
        };
        match reject_presentation_media_path(bound.as_str()) {
            Ok(()) => {},
            Err(e) => {
                proof {
                    lemma_reviewed_err_persists(av, cv, i + 1, assets.len() as int);
                }
                return Err(e);
            },
        }
        match reserve_archive_path(&mut reserved, bound.as_str()) {
            Ok(()) => {},
            Err(e) => {
                proof {
                    lemma_reviewed_err_persists(av, cv, i + 1, assets.len() as int);
                }
                return Err(e);
            },
        }
        let ghost before = paths@;
        paths.push(bound);
        proof {
            assert(string_views(paths@) =~= string_views(before).push(paths@[paths@.len() - 1]@));
        }
        i += 1;
    }
    Ok(paths)
}

// ---------------------------------------------------------------------------
// Embedded presentation members
// ---------------------------------------------------------------------------

/// The plain contents of entries.
pub open spec fn entry_views(s: Seq<PlaylistEntry>) -> Seq<EntryView> {
    s.map_values(|e: PlaylistEntry| e@)
}

/// Entry `i` is embedded and no earlier embedded entry has its path.
pub open spec fn first_embedded_source(es: Seq<EntryView>, i: int) -> bool {
    &&& 0 <= i < es.len()
    &&& es[i].3 is Some
    &&& forall|j: int| 0 <= j < i ==> !(#[trigger] es[j].3 is Some && es[j].1 == es[i].1)
}

/// Entries `j < i` are distinct embedded sources whose file names are equal
/// ignoring case.
pub open spec fn basename_clash(es: Seq<EntryView>, j: int, i: int) -> bool {
    &&& 0 <= j < i
    &&& first_embedded_source(es, j)
    &&& first_embedded_source(es, i)
    &&& unicode_lowercase(es[j].2) == unicode_lowercase(es[i].2)
}

/// No clash among the first `n` entries.
pub open spec fn no_clash_before(es: Seq<EntryView>, n: int) -> bool {
    forall|j: int, i: int| 0 <= j < i < n ==> !#[trigger] basename_clash(es, j, i)
}

/// The archive member name given to entry `i`: its file name when it is
/// the first embedded entry of its source.
pub open spec fn embedded_name_at(es: Seq<EntryView>, i: int) -> Option<Seq<char>> {
    if first_embedded_source(es, i) {
        Some(es[i].2)
    } else {
        None
    }
}

/// The option views of names.
pub open spec fn name_views(s: Seq<Option<String>>) -> Seq<Option<Seq<char>>> {
    s.map_values(|o: Option<String>| opt_view(o))
}

/// Allocate the embedded archive member name of each entry, in order: the
/// first embedded entry of each source path gets its presentation file name;
/// repeated sources and linked entries get none. Two sources whose names are
/// equal ignoring case are refused.
pub fn embedded_filenames(entries: &[PlaylistEntry]) -> (r: Result<Vec<Option<String>>, PlaylistError>)
    ensures
        ({
            let es = entry_views(entries@);
            match r {
                Ok(names) => no_clash_before(es, es.len() as int) && names@.len() == es.len() && forall|i: int|
                    0 <= i < es.len() ==> #[trigger] name_views(names@)[i] == embedded_name_at(es, i),
                Err(e) => exists|j: int, i: int|
                    {
                        &&& #[trigger] basename_clash(es, j, i)
                        &&& no_clash_before(es, i)
                        &&& e@ == PlaylistErrorView::DuplicateEmbeddedPresentationBasename(es[j].2, es[j].1, es[i].1)
                    },
            }
        }),
{
    let ghost es = entry_views(entries@);
    let mut names: Vec<Option<String>> = Vec::new();
    let mut firsts: Vec<usize> = Vec::new();
    let mut i: usize = 0;
    while i < entries.len()
        invariant
            i <= entries.len(),
            es == entry_views(entries@),
            names@.len() == i,
            no_clash_before(es, i as int),
            forall|k: int| 0 <= k < i ==> #[trigger] name_views(names@)[k] == embedded_name_at(es, k),
            forall|k: int| 0 <= k < firsts@.len() ==> (#[trigger] firsts@[k]) < i && first_embedded_source(es, firsts@[k] as int),
            forall|k: int| 0 <= k < i && first_embedded_source(es, k) ==> #[trigger] firsts@.contains(k as usize),
        decreases entries.len() - i,
    {
        let entry = &entries[i];
        proof {
            assert(es[i as int] == entry@);
        }
        let mut named: Option<String> = None;
        if entry.embedded_data().is_some() {
            let path = chars_of(entry.presentation_path());
            let mut repeated = false;
            let mut j: usize = 0;
            while j < i
                invariant
                    j <= i < entries.len(),
                    es == entry_views(entries@),
                    path@ == es[i as int].1,
                    repeated == exists|k: int| 0 <= k < j && #[trigger] es[k].3 is Some && es[k].1 == es[i as int].1,
                decreases i - j,
            {
                proof {
                    assert(es[j as int] == entries@[j as int]@);
                }
                if entries[j].embedded_data().is_some() {
                    let other = chars_of(entries[j].presentation_path());
                    if chars_eq(other.as_slice(), path.as_slice()) {
                        repeated = true;
                    }
                }
                j += 1;
            }
            if !repeated {
                proof {
                    assert(first_embedded_source(es, i as int));
                }
                let base = entry.embedded_filename();
                let key = chars_of(to_lowercase(base).as_str());
                let mut f: usize = 0;
                while f < firsts.len()
                    invariant
                        f <= firsts.len(),
                        i < entries.len(),
                        es == entry_views(entries@),
                        key@ == unicode_lowercase(es[i as int].2),
                        first_embedded_source(es, i as int),
                        no_clash_before(es, i as int),
                        forall|k: int| 0 <= k < firsts@.len() ==> (#[trigger] firsts@[k]) < i && first_embedded_source(es, firsts@[k] as int),
                        forall|k: int| 0 <= k < f ==> !basename_clash(es, #[trigger] firsts@[k] as int, i as int),
                    decreases firsts.len() - f,
                {
                    let first = firsts[f];
                    proof {
                        assert(es[first as int] == entries@[first as int]@);
                    }
                    let first_key = chars_of(to_lowercase(entries[first].embedded_filename()).as_str());
                    if chars_eq(first_key.as_slice(), key.as_slice()) {
                        let err = PlaylistError::DuplicateEmbeddedPresentationBasename {
                            basename: entries[first].embedded_filename().to_string(),
                            first_presentation_path: entries[first].presentation_path().to_string(),
                            conflicting_presentation_path: entries[i].presentation_path().to_string(),
                        };
                        proof {
                            assert(es[i as int] == entries@[i as int]@);
                            assert(basename_clash(es, first as int, i as int));
                            assert(err@ == PlaylistErrorView::DuplicateEmbeddedPresentationBasename(
                                es[first as int].2,
                                es[first as int].1,
                                es[i as int].1,
                            ));
                        }
                        return Err(err);
                    }
                    f += 1;
                }
                proof {
                    assert forall|j: int, k: int| 0 <= j < k < i + 1 implies !#[trigger] basename_clash(es, j, k) by {
                        if k == i && basename_clash(es, j, k) {
                            assert(firsts@.contains(j as usize));
                            let q = choose|q: int| 0 <= q < firsts@.len() && firsts@[q] == j as usize;
                            assert(!basename_clash(es, firsts@[q] as int, i as int));
                        }
                    }
                }
                let ghost old_firsts = firsts@;
                firsts.push(i);
                proof {
                    assert forall|k: int| 0 <= k < i + 1 && first_embedded_source(es, k) implies #[trigger] firsts@.contains(k as usize) by {
                        if k < i {
                            assert(old_firsts.contains(k as usize));
                            let q = choose|q: int| 0 <= q < old_firsts.len() && old_firsts[q] == k as usize;
                            assert(firsts@[q] == k as usize);
                        } else {
                            assert(firsts@[firsts@.len() - 1] == i);
                        }
                    }
                }
                named = Some(base.to_string());
            } else {
                proof {
                    assert(!first_embedded_source(es, i as int));
                }
            }
        } else {
            proof {
                assert(!first_embedded_source(es, i as int));
            }
        }
        let ghost before = names@;
        names.push(named);
        proof {
            assert(names@ == before.push(names@[i as int]));
            assert forall|k: int| 0 <= k < i + 1 implies #[trigger] name_views(names@)[k] == embedded_name_at(es, k) by {
                if k < i {
                    assert(name_views(names@)[k] == name_views(before)[k]);
                }
            }
            assert forall|j: int, k: int| 0 <= j < k < i + 1 implies !#[trigger] basename_clash(es, j, k) by {
                if k == i && basename_clash(es, j, k) {
                    assert(first_embedded_source(es, i as int));
                }
            }
        }
        i += 1;
    }
    Ok(names)
}

/// Entry `j < i` is the first embedded copy of entry `i`'s source and its
/// bytes differ.
pub open spec fn source_conflict(es: Seq<EntryView>, j: int, i: int) -> bool {
    &&& j < i < es.len()
    &&& es[i].3 is Some
    &&& first_embedded_source(es, j)
    &&& es[j].1 == es[i].1
    &&& es[j].3 != es[i].3
}

/// Refuse one source presentation supplied with different embedded bytes:
/// every embedded copy must equal the first copy of its source.
pub fn validate_embedded_source_consistency(entries: &[PlaylistEntry]) -> (r: Result<(), PlaylistError>)
    ensures
        ({
            let es = entry_views(entries@);
            match r {
                Ok(()) => forall|j: int, i: int| !#[trigger] source_conflict(es, j, i),
                Err(e) => exists|j: int, i: int|
                    {
                        &&& #[trigger] source_conflict(es, j, i)
                        &&& forall|q: int, p: int| p < i ==> !#[trigger] source_conflict(es, q, p)
                        &&& e@ == PlaylistErrorView::ConflictingEmbeddedSource(es[i].1, j, i)
                    },
            }
        }),
{
    let ghost es = entry_views(entries@);
    let mut i: usize = 0;
    while i < entries.len()
        invariant
            i <= entries.len(),
            es == entry_views(entries@),
            forall|q: int, p: int| p < i ==> !#[trigger] source_conflict(es, q, p),
        decreases entries.len() - i,
    {
        proof {
            assert(es[i as int] == entries@[i as int]@);
        }
        match entries[i].embedded_data() {
            Some(data) => {
                let path = chars_of(entries[i].presentation_path());
                let mut j: usize = 0;
                let mut found = false;
                while j < i && !found
                    invariant
                        j <= i < entries.len(),
                        es == entry_views(entries@),
                        path@ == es[i as int].1,
                        es[i as int].3 == Some(data@),
                        forall|q: int, p: int| p < i ==> !#[trigger] source_conflict(es, q, p),
                        !found ==> forall|k: int| 0 <= k < j ==> !(#[trigger] es[k].3 is Some && es[k].1 == es[i as int].1),
                        found ==> j > 0 && first_embedded_source(es, j - 1) && es[j - 1].1 == es[i as int].1
                            && es[j - 1].3 == es[i as int].3,
                    decreases i - j + if found { 0int } else { 1int },
                {
                    proof {
                        assert(es[j as int] == entries@[j as int]@);
                    }
                    match entries[j].embedded_data() {
                        Some(other) => {
                            let other_path = chars_of(entries[j].presentation_path());
                            if chars_eq(other_path.as_slice(), path.as_slice()) {
                                if !bytes_eq(other, data) {
                                    proof {
                                        assert(source_conflict(es, j as int, i as int));
                                    }
                                    return Err(PlaylistError::ConflictingEmbeddedSource {
                                        presentation_path: entries[i].presentation_path().to_string(),
                                        first_index: j,
                                        conflicting_index: i,
                                    });
                                }
                                found = true;
                            }
                        },
                        None => {},
                    }
                    j += 1;
                }
                proof {
                    assert forall|q: int, p: int| p < i + 1 implies !#[trigger] source_conflict(es, q, p) by {
                        if p == i && source_conflict(es, q, p) {
                            if found {
                                assert(q == j - 1);
                            } else {
                                assert(es[q].3 is Some && es[q].1 == es[i as int].1);
                            }
                        }
                    }
                }
            },
            None => {},
        }
        i += 1;
    }
    Ok(())
}

pub(crate) fn bytes_eq(a: &[u8], b: &[u8]) -> (r: bool)
    ensures
        r == (a@ == b@),
{
    if a.len() != b.len() {
        return false;
    }
    let mut i: usize = 0;
    while i < a.len()
        invariant
            i <= a.len(),
            a.len() == b.len(),
            forall|k: int| 0 <= k < i ==> a@[k] == b@[k],
        decreases a.len() - i,
    {
        if a[i] != b[i] {
            return false;
        }
        i += 1;
    }
    proof {
        assert(a@ =~= b@);
    }
    true
}


// ---------------------------------------------------------------------------
// Arrangement identities as text
// ---------------------------------------------------------------------------

/// The lowercase hexadecimal digit of `d < 16`.
pub open spec fn lower_hex_digit(d: int) -> char {
    if d < 10 {
        (48 + d) as char
    } else {
        (87 + d) as char
    }
}

/// The last `n` hexadecimal digits of `v`, most significant first.
pub open spec fn hex_digits(v: int, n: nat) -> Seq<char>
    decreases n,
{
    if n == 0 {
        Seq::empty()
    } else {
        hex_digits(v / 16, (n - 1) as nat).push(lower_hex_digit(v % 16))
    }
}

/// The lowercase hyphenated text of a UUID value: its 32 hexadecimal
/// digits, most significant first, grouped 8-4-4-4-12.
pub open spec fn hyphenated_uuid(v: u128) -> Seq<char> {
    let d = hex_digits(v as int, 32);
    d.subrange(0, 8) + seq!['-'] + d.subrange(8, 12) + seq!['-'] + d.subrange(12, 16) + seq!['-']
        + d.subrange(16, 20) + seq!['-'] + d.subrange(20, 32)
}

/// uuid `Uuid::from_u128` rendered with `to_string`: the crate's `Display`
/// writes the lowercase hyphenated form of the big-endian bytes, which is
/// what the contract states.
#[verifier::external_body]
fn uuid_text(v: u128) -> (s: String)
    ensures
        s@ == hyphenated_uuid(v),
{
    uuid::Uuid::from_u128(v).to_string()
}

// ---------------------------------------------------------------------------
// Checking a playlist document against its entries
// ---------------------------------------------------------------------------

/// The arrangement identity an entry's item records.
pub open spec fn expected_arrangement_uuid(e: EntryView) -> Option<Seq<char>> {
    match e.4 {
        Some(a) => Some(hyphenated_uuid(a.0)),
        None => None,
    }
}

/// The arrangement name an entry's item records.
pub open spec fn expected_arrangement_name(e: EntryView) -> Seq<char> {
    match e.4 {
        Some(a) => a.1,
        None => Seq::empty(),
    }
}

/// The music key an entry's item records.
pub open spec fn expected_music_key(e: EntryView) -> Option<(i32, i32)> {
    match e.5 {
        Some(k) => Some((k.music_key, k.music_scale)),
        None => None,
    }
}

/// The root of the show-relative locator written for a presentation path.
pub open spec fn expected_local_root(path: Seq<char>) -> Option<i32> {
    if presentation_relative_path(path) is Some {
        Some(ROOT_SHOW)
    } else {
        None
    }
}

/// The first field of the item contract that a presentation item breaks
/// for an entry, in contract order.
pub open spec fn field_mismatch(item: PlaylistItemSummary, e: EntryView) -> Option<PlaylistItemContractField> {
    if item.name@ != e.0 {
        Some(PlaylistItemContractField::Name)
    } else if item.document_platform != Some(PLATFORM_MACOS) {
        Some(PlaylistItemContractField::DocumentPlatform)
    } else if opt_view(item.absolute_string) != Some(file_url_of(e.1)) {
        Some(PlaylistItemContractField::AbsoluteFileUrl)
    } else if item.storage_relative_path is Some {
        Some(PlaylistItemContractField::StorageRelativePath)
    } else if opt_view(item.local_relative_path) != presentation_relative_path(e.1) {
        Some(PlaylistItemContractField::LocalRelativePath)
    } else if item.local_root != expected_local_root(e.1) {
        Some(PlaylistItemContractField::LocalRelativeRoot)
    } else if item.external_relative_path is Some {
        Some(PlaylistItemContractField::ExternalRelativePath)
    } else if opt_view(item.arrangement_uuid) != expected_arrangement_uuid(e) {
        Some(PlaylistItemContractField::ArrangementUuid)
    } else if item.arrangement_name@ != expected_arrangement_name(e) {
        Some(PlaylistItemContractField::ArrangementName)
    } else if item.user_music_key != expected_music_key(e) {
        Some(PlaylistItemContractField::UserMusicKey)
    } else if item.content_destination != CONTENT_DESTINATION_GLOBAL {
        Some(PlaylistItemContractField::ContentDestination)
    } else {
        None
    }
}

/// The message of a count mismatch.
pub open spec fn count_message(items: nat, entries: nat) -> Seq<char> {
    "document contains "@ + decimal(items) + " presentation items but "@ + decimal(entries)
        + " package entries were supplied"@
}

/// The message of an item without a usable linked file name.
pub open spec fn no_linked_message(index: nat, name: Seq<char>) -> Seq<char> {
    "presentation item "@ + decimal(index) + " ("@ + debug_quoted(name) + ") has no usable linked filename"@
}

/// The message of an item linking another file than it embeds.
pub open spec fn link_mismatch_message(index: nat, name: Seq<char>, linked: Seq<char>, embedded: Seq<char>) -> Seq<char> {
    "presentation item "@ + decimal(index) + " ("@ + debug_quoted(name) + ") links to "@ + debug_quoted(
        linked,
    ) + " but embeds "@ + debug_quoted(embedded)
}

/// What is wrong with item `index` for its entry and embedded name.
pub open spec fn item_issue(
    index: nat,
    item: PlaylistItemSummary,
    e: EntryView,
    embedded: Option<Seq<char>>,
) -> Option<PlaylistErrorView> {
    match field_mismatch(item, e) {
        Some(f) => Some(PlaylistErrorView::PackageItemMismatch(index as int, e.0, f)),
        None => match embedded {
            None => None,
            Some(name) => match linked_filename_of(item) {
                None => Some(PlaylistErrorView::PackageMismatch(no_linked_message(index, e.0))),
                Some(linked) => if eq_ignore_ascii_case(linked, name) {
                    None
                } else {
                    Some(PlaylistErrorView::PackageMismatch(link_mismatch_message(index, e.0, linked, name)))
                },
            },
        },
    }
}

/// The first issue among the first `n` items.
pub open spec fn first_item_issue(
    items: Seq<PlaylistItemSummary>,
    es: Seq<EntryView>,
    names: Seq<Option<Seq<char>>>,
    n: int,
) -> Option<PlaylistErrorView>
    decreases n,
{
    if n <= 0 {
        None
    } else {
        match first_item_issue(items, es, names, n - 1) {
            Some(x) => Some(x),
            None => item_issue((n - 1) as nat, items[n - 1], es[n - 1], names[n - 1]),
        }
    }
}

/// The outcome of checking presentation items against entries: the count
/// first, then each item over the items that have an embedded-name slot.
pub open spec fn validation_issue(
    items: Seq<PlaylistItemSummary>,
    es: Seq<EntryView>,
    names: Seq<Option<Seq<char>>>,
) -> Option<PlaylistErrorView> {
    if items.len() != es.len() {
        Some(PlaylistErrorView::PackageMismatch(count_message(items.len(), es.len())))
    } else {
        first_item_issue(items, es, names, if names.len() < items.len() { names.len() as int } else { items.len() as int })
    }
}

proof fn lemma_same_summary_same_issue(
    a: PlaylistItemSummary,
    b: PlaylistItemSummary,
    e: EntryView,
    n: Option<Seq<char>>,
    index: nat,
)
    requires
        same_summary(a, b),
    ensures
        item_issue(index, a, e, n) == item_issue(index, b, e, n),
{
}

proof fn lemma_first_issue_same(
    a: Seq<PlaylistItemSummary>,
    b: Seq<PlaylistItemSummary>,
    es: Seq<EntryView>,
    names: Seq<Option<Seq<char>>>,
    n: int,
)
    requires
        same_summaries(a, b),
        n <= a.len(),
    ensures
        first_item_issue(a, es, names, n) == first_item_issue(b, es, names, n),
    decreases n,
{
    if n > 0 {
        lemma_first_issue_same(a, b, es, names, n - 1);
        lemma_same_summary_same_issue(a[n - 1], b[n - 1], es[n - 1], names[n - 1], (n - 1) as nat);
    }
}

fn same_opt_chars(a: &Option<String>, b: &Option<Vec<char>>) -> (r: bool)
    ensures
        r == (opt_view(*a) == match b {
            Some(v) => Some(v@),
            None => None::<Seq<char>>,
        }),
{
    match (a, b) {
        (Some(x), Some(y)) => {
            let xc = chars_of(x.as_str());
            chars_eq(xc.as_slice(), y.as_slice())
        },
        (None, None) => true,
        _ => false,
    }
}

fn item_field_mismatch(item: &PlaylistItemSummary, entry: &PlaylistEntry) -> (r: Option<PlaylistItemContractField>)
    ensures
        r == field_mismatch(*item, entry@),
{
    let (absolute_file_url, relative_path) = document_path_for_presentation_path(entry.presentation_path());
    let (local_relative_path, local_root): (Option<Vec<char>>, Option<i32>) = match &relative_path {
        Some(RelativeFilePath::Local(l)) => (Some(chars_of(l.path.as_str())), Some(l.root)),
        _ => (None, None),
    };
    let expected_uuid: Option<Vec<char>> = match entry.selected_arrangement() {
        Some(a) => Some(chars_of(uuid_text(a.uuid()).as_str())),
        None => None,
    };
    let expected_name: Vec<char> = match entry.selected_arrangement() {
        Some(a) => chars_of(a.name()),
        None => Vec::new(),
    };
    let expected_key: Option<(i32, i32)> = match entry.user_music_key() {
        Some(k) => Some((k.music_key, k.music_scale)),
        None => None,
    };
    let name = chars_of(entry.name());
    if !chars_eq(chars_of(item.name.as_str()).as_slice(), name.as_slice()) {
        return Some(PlaylistItemContractField::Name);
    }
    let platform_ok = match item.document_platform {
        Some(p) => p == PLATFORM_MACOS,
        None => false,
    };
    if !platform_ok {
        return Some(PlaylistItemContractField::DocumentPlatform);
    }
    if !same_opt_chars(&item.absolute_string, &Some(chars_of(absolute_file_url.as_str()))) {
        return Some(PlaylistItemContractField::AbsoluteFileUrl);
    }
    if item.storage_relative_path.is_some() {
        return Some(PlaylistItemContractField::StorageRelativePath);
    }
    if !same_opt_chars(&item.local_relative_path, &local_relative_path) {
        return Some(PlaylistItemContractField::LocalRelativePath);
    }
    let root_ok = match (item.local_root, local_root) {
        (Some(x), Some(y)) => x == y,
        (None, None) => true,
        _ => false,
    };
    if !root_ok {
        return Some(PlaylistItemContractField::LocalRelativeRoot);
    }
    if item.external_relative_path.is_some() {
        return Some(PlaylistItemContractField::ExternalRelativePath);
    }
    if !same_opt_chars(&item.arrangement_uuid, &expected_uuid) {
        return Some(PlaylistItemContractField::ArrangementUuid);
    }
    if !chars_eq(chars_of(item.arrangement_name.as_str()).as_slice(), expected_name.as_slice()) {
        return Some(PlaylistItemContractField::ArrangementName);
    }
    let key_ok = match (item.user_music_key, expected_key) {
        (Some(x), Some(y)) => x.0 == y.0 && x.1 == y.1,
        (None, None) => true,
        _ => false,
    };
    if !key_ok {
        return Some(PlaylistItemContractField::UserMusicKey);
    }
    if item.content_destination != CONTENT_DESTINATION_GLOBAL {
        return Some(PlaylistItemContractField::ContentDestination);
    }
    None
}

fn push_item_prefix(out: &mut Vec<char>, index: usize, name: &str)
    ensures
        final(out)@ == old(out)@ + "presentation item "@ + decimal(index as nat) + " ("@ + debug_quoted(name@),
{
    push_str(out, "presentation item ");
    push_decimal(out, index as u64);
    push_str(out, " (");
    push_str(out, str_debug(name).as_str());
}

fn item_problem(
    index: usize,
    item: &PlaylistItemSummary,
    entry: &PlaylistEntry,
    embedded: &Option<String>,
) -> (r: Option<PlaylistError>)
    ensures
        match r {
            Some(e) => item_issue(index as nat, *item, entry@, opt_view(*embedded)) == Some(e@),
            None => item_issue(index as nat, *item, entry@, opt_view(*embedded)) is None,
        },
{
    match item_field_mismatch(item, entry) {
        Some(field) => {
            return Some(PlaylistError::PackageItemMismatch { index, name: entry.name().to_string(), field });
        },
        None => {},
    }
    match embedded {
        None => None,
        Some(name) => {
            match linked_presentation_filename(item) {
                None => {
                    let mut m: Vec<char> = Vec::new();
                    push_item_prefix(&mut m, index, entry.name());
                    push_str(&mut m, ") has no usable linked filename");
                    proof {
                        assert(m@ =~= no_linked_message(index as nat, entry@.0));
                    }
                    Some(PlaylistError::PackageMismatch(string_of(m.as_slice())))
                },
                Some(linked) => {
                    let lc = chars_of(linked.as_str());
                    let nc = chars_of(name.as_str());
                    if chars_eq_ignore_ascii_case(lc.as_slice(), nc.as_slice()) {
                        None
                    } else {
                        let mut m: Vec<char> = Vec::new();
                        push_item_prefix(&mut m, index, entry.name());
                        push_str(&mut m, ") links to ");
                        push_str(&mut m, str_debug(linked.as_str()).as_str());
                        push_str(&mut m, " but embeds ");
                        push_str(&mut m, str_debug(name.as_str()).as_str());
                        proof {
                            assert(m@ =~= link_mismatch_message(index as nat, entry@.0, linked@, name@));
                        }
                        Some(PlaylistError::PackageMismatch(string_of(m.as_slice())))
                    }
                },
            }
        },
    }
}

/// Check that a playlist document's presentation items carry exactly the
/// item contract of their package entries, in order, and that each
/// embedded member is the file its item links.
pub fn validate_playlist_matches_entries(
    playlist: &PlaylistDocument,
    entries: &[PlaylistEntry],
    embedded_filenames: &[Option<String>],
) -> (r: Result<(), PlaylistError>)
    ensures
        ({
            let issue = validation_issue(
                document_summaries(*playlist),
                entry_views(entries@),
                name_views(embedded_filenames@),
            );
            match r {
                Ok(()) => issue is None,
                Err(e) => issue == Some(e@),
            }
        }),
{
    let items = presentation_items(playlist);
    let ghost ds = document_summaries(*playlist);
    let ghost es = entry_views(entries@);
    let ghost ns = name_views(embedded_filenames@);
    if items.len() != entries.len() {
        let mut m: Vec<char> = Vec::new();
        push_str(&mut m, "document contains ");
        push_decimal(&mut m, items.len() as u64);
        push_str(&mut m, " presentation items but ");
        push_decimal(&mut m, entries.len() as u64);
        push_str(&mut m, " package entries were supplied");
        proof {
            assert(m@ =~= count_message(ds.len(), es.len()));
        }
        return Err(PlaylistError::PackageMismatch(string_of(m.as_slice())));
    }
    let n = if embedded_filenames.len() < items.len() { embedded_filenames.len() } else { items.len() };
    let mut i: usize = 0;
    while i < n
        invariant
            i <= n,
            n == if embedded_filenames.len() < items.len() { embedded_filenames.len() } else { items.len() },
            items.len() == entries.len(),
            ds.len() == items.len(),
            ds == document_summaries(*playlist),
            ns.len() == embedded_filenames.len(),
            es.len() == entries.len(),
            es == entry_views(entries@),
            ns == name_views(embedded_filenames@),
            same_summaries(items@, ds),
            first_item_issue(items@, es, ns, i as int) is None,
        decreases n - i,
    {
        proof {
            assert(es[i as int] == entries@[i as int]@);
            assert(ns[i as int] == opt_view(embedded_filenames@[i as int]));
        }
        match item_problem(i, &items[i], &entries[i], &embedded_filenames[i]) {
            Some(e) => {
                proof {
                    assert(item_issue(i as nat, items@[i as int], es[i as int], ns[i as int]) == Some(e@));
                    lemma_issue_found(items@, ds, es, ns, i as int, n as int, e@);
                }
                return Err(e);
            },
            None => {},
        }
        i += 1;
    }
    proof {
        lemma_first_issue_same(items@, ds, es, ns, n as int);
    }
    Ok(())
}

proof fn lemma_issue_found(
    items: Seq<PlaylistItemSummary>,
    ds: Seq<PlaylistItemSummary>,
    es: Seq<EntryView>,
    ns: Seq<Option<Seq<char>>>,
    i: int,
    n: int,
    e: PlaylistErrorView,
)
    requires
        same_summaries(items, ds),
        ds.len() == es.len(),
        n == if ns.len() < ds.len() { ns.len() as int } else { ds.len() as int },
        0 <= i < n,
        first_item_issue(items, es, ns, i) is None,
        item_issue(i as nat, items[i], es[i], ns[i]) == Some(e),
    ensures
        validation_issue(ds, es, ns) == Some(e),
{
    assert(first_item_issue(items, es, ns, i + 1) == Some(e));
    lemma_first_issue_persists(items, es, ns, i + 1, n);
    lemma_first_issue_same(items, ds, es, ns, n);
}

proof fn lemma_first_issue_persists(
    items: Seq<PlaylistItemSummary>,
    es: Seq<EntryView>,
    names: Seq<Option<Seq<char>>>,
    k: int,
    n: int,
)
    requires
        1 <= k <= n,
        first_item_issue(items, es, names, k) is Some,
    ensures
        first_item_issue(items, es, names, n) == first_item_issue(items, es, names, k),
    decreases n - k,
{
    if n > k {
        lemma_first_issue_persists(items, es, names, k, n - 1);
    }
}


// ---------------------------------------------------------------------------
// Building playlist documents
// ---------------------------------------------------------------------------

/// Whether a document URL is the one written for presentation path `path`.
pub open spec fn is_built_url(u: Url, path: Seq<char>) -> bool {
    &&& u.platform == PLATFORM_MACOS
    &&& match u.storage {
        Some(UrlStorage::AbsoluteString(s)) => s@ == file_url_of(path),
        _ => false,
    }
    &&& match presentation_relative_path(path) {
        Some(rel) => match u.relative_file_path {
            Some(RelativeFilePath::Local(l)) => l.root == ROOT_SHOW && l.path@ == rel,
            _ => false,
        },
        None => u.relative_file_path is None,
    }
}

/// Whether a presentation payload is the one written for entry `e`.
pub open spec fn is_built_presentation(p: PlaylistPresentationItem, e: EntryView) -> bool {
    &&& match p.document_path {
        Some(u) => is_built_url(u, e.1),
        None => false,
    }
    &&& opt_view(p.arrangement) == expected_arrangement_uuid(e)
    &&& p.content_destination == CONTENT_DESTINATION_GLOBAL
    &&& p.user_music_key == e.5
    &&& p.arrangement_name@ == expected_arrangement_name(e)
}

/// Whether `item` is the native playlist item written for entry `e`, under
/// a fresh identity.
pub open spec fn is_built_item(item: PlaylistItem, e: EntryView) -> bool {
    &&& fresh_identity(item.uuid)
    &&& item.name@ == e.0
    &&& item.tags@.len() == 0
    &&& !item.is_hidden
    &&& match item.item_type {
        Some(PlaylistItemType::Presentation(p)) => is_built_presentation(p, e),
        _ => false,
    }
}

/// Whether `p` is the child playlist written for `name` and its entries.
pub open spec fn is_built_child(p: Playlist, name: Seq<char>, es: Seq<EntryView>) -> bool {
    &&& fresh_identity(p.uuid)
    &&& p.name@ == name
    &&& p.children@.len() == 0
    &&& match p.children_type {
        Some(PlaylistChildren::Items(items)) => items@.len() == es.len() && forall|k: int|
            0 <= k < es.len() ==> is_built_item(#[trigger] items@[k], es[k]),
        _ => false,
    }
}

/// Whether `d` is the document written for producer `info` and the named
/// children, each with its entries.
pub open spec fn is_built_document(
    d: PlaylistDocument,
    info: ApplicationInfo,
    children: Seq<(Seq<char>, Seq<EntryView>)>,
) -> bool {
    &&& d.application_info == Some(info)
    &&& d.document_type == PLAYLIST_DOCUMENT_TYPE_PRESENTATION
    &&& d.live_video_playlist is None
    &&& d.downloads_playlist is None
    &&& match d.root_node {
        Some(root) => {
            &&& fresh_identity(root.uuid)
            &&& root.name@ == "PLAYLIST"@
            &&& root.children@.len() == 0
            &&& match root.children_type {
                Some(PlaylistChildren::Playlists(ps)) => ps@.len() == children.len() && forall|k: int|
                    0 <= k < children.len() ==> is_built_child(#[trigger] ps@[k], children[k].0, children[k].1),
                _ => false,
            }
        },
        None => false,
    }
}

fn build_playlist_item(entry: &PlaylistEntry) -> (r: PlaylistItem)
    ensures
        is_built_item(r, entry@),
{
    let (file_url, relative_path) = document_path_for_presentation_path(entry.presentation_path());
    let arrangement = match entry.selected_arrangement() {
        Some(a) => Some(uuid_text(a.uuid())),
        None => None,
    };
    let arrangement_name = match entry.selected_arrangement() {
        Some(a) => a.name().to_string(),
        None => String::new(),
    };
    PlaylistItem {
        uuid: Some(new_uuid_string()),
        name: entry.name().to_string(),
        tags: Vec::new(),
        is_hidden: false,
        item_type: Some(
            PlaylistItemType::Presentation(
                PlaylistPresentationItem {
                    document_path: Some(
                        Url {
                            platform: PLATFORM_MACOS,
                            storage: Some(UrlStorage::AbsoluteString(file_url)),
                            relative_file_path: relative_path,
                        },
                    ),
                    arrangement,
                    content_destination: CONTENT_DESTINATION_GLOBAL,
                    user_music_key: entry.user_music_key(),
                    arrangement_name,
                },
            ),
        ),
    }
}

fn build_child_playlist(name: &str, entries: &[PlaylistEntry]) -> (r: Playlist)
    ensures
        is_built_child(r, name@, entry_views(entries@)),
{
    let ghost es = entry_views(entries@);
    let mut items: Vec<PlaylistItem> = Vec::new();
    let mut i: usize = 0;
    while i < entries.len()
        invariant
            i <= entries.len(),
            es == entry_views(entries@),
            items@.len() == i,
            forall|k: int| 0 <= k < i ==> is_built_item(#[trigger] items@[k], es[k]),
        decreases entries.len() - i,
    {
        proof {
            assert(es[i as int] == entries@[i as int]@);
        }
        items.push(build_playlist_item(&entries[i]));
        i += 1;
    }
    Playlist {
        uuid: Some(new_uuid_string()),
        name: name.to_string(),
        children: Vec::new(),
        children_type: Some(PlaylistChildren::Items(items)),
    }
}

fn build_playlist_document(children: Vec<Playlist>, metadata: &PlaylistMetadata) -> (r: PlaylistDocument)
    ensures
        r.application_info == Some(metadata.info()),
        r.document_type == PLAYLIST_DOCUMENT_TYPE_PRESENTATION,
        r.live_video_playlist is None,
        r.downloads_playlist is None,
        r.root_node matches Some(root) && fresh_identity(root.uuid) && root.name@ == "PLAYLIST"@ && root.children@.len()
            == 0 && root.children_type == Some(PlaylistChildren::Playlists(children)),
{
    let root_node = Playlist {
        uuid: Some(new_uuid_string()),
        name: "PLAYLIST".to_string(),
        children: Vec::new(),
        children_type: Some(PlaylistChildren::Playlists(children)),
    };
    PlaylistDocument {
        application_info: Some(metadata.application_info().clone()),
        document_type: PLAYLIST_DOCUMENT_TYPE_PRESENTATION,
        root_node: Some(root_node),
        live_video_playlist: None,
        downloads_playlist: None,
    }
}

/// Build a native document containing one named child playlist.
pub fn build_playlist(name: &str, entries: &[PlaylistEntry], metadata: &PlaylistMetadata) -> (r: PlaylistDocument)
    ensures
        is_built_document(r, metadata.info(), seq![(name@, entry_views(entries@))]),
{
    let child = build_child_playlist(name, entries);
    let ghost c = child;
    let children = vec![child];
    proof {
        assert(children@ == seq![c]);
    }
    build_playlist_document(children, metadata)
}

/// The named children of a playlist set, each with its entries.
pub open spec fn set_children(s: PlaylistSet) -> Seq<(Seq<char>, Seq<EntryView>)> {
    s.children_view().map_values(
        |c: (Seq<char>, int, int)| (c.0, entry_views(s.entries_view().subrange(c.1, c.2))),
    )
}

/// Build one native document containing every named child of a checked set,
/// in set order.
pub fn build_playlist_set(playlist_set: &PlaylistSet, metadata: &PlaylistMetadata) -> (r: PlaylistDocument)
    ensures
        is_built_document(r, metadata.info(), set_children(*playlist_set)),
{
    let children = playlist_set.children();
    let ghost sc = set_children(*playlist_set);
    let mut built: Vec<Playlist> = Vec::new();
    let mut i: usize = 0;
    while i < children.len()
        invariant
            i <= children.len(),
            children@.len() == playlist_set.children_view().len(),
            sc == set_children(*playlist_set),
            forall|k: int| 0 <= k < children@.len() ==> {
                let c = #[trigger] playlist_set.children_view()[k];
                children@[k].0@ == c.0 && children@[k].1@ == playlist_set.entries_view().subrange(c.1, c.2)
            },
            built@.len() == i,
            forall|k: int| 0 <= k < i ==> is_built_child(#[trigger] built@[k], sc[k].0, sc[k].1),
        decreases children.len() - i,
    {
        let (name, entries) = children[i];
        let child = build_child_playlist(name, entries);
        proof {
            let c = playlist_set.children_view()[i as int];
            assert(sc[i as int] == (c.0, entry_views(playlist_set.entries_view().subrange(c.1, c.2))));
        }
        built.push(child);
        i += 1;
    }
    build_playlist_document(built, metadata)
}


// ---------------------------------------------------------------------------
// Built documents meet their entries' item contract
// ---------------------------------------------------------------------------

/// The entries of the first `n` children, in order.
pub open spec fn children_entries(children: Seq<(Seq<char>, Seq<EntryView>)>, n: int) -> Seq<EntryView>
    decreases n,
{
    if n <= 0 {
        Seq::empty()
    } else {
        children_entries(children, n - 1) + children[n - 1].1
    }
}

/// Summaries meet the item contract of entries, position by position.
pub open spec fn meets_contract(s: Seq<PlaylistItemSummary>, es: Seq<EntryView>) -> bool {
    &&& s.len() == es.len()
    &&& forall|k: int| 0 <= k < s.len() ==> field_mismatch(#[trigger] s[k], es[k]) is None
}

proof fn lemma_built_item_summary(item: PlaylistItem, e: EntryView)
    requires
        is_built_item(item, e),
    ensures
        item_summary(item) matches Some(s) && field_mismatch(s, e) is None,
{
}

proof fn lemma_built_items(items: Seq<PlaylistItem>, es: Seq<EntryView>, n: int)
    requires
        0 <= n <= items.len(),
        items.len() == es.len(),
        forall|k: int| 0 <= k < es.len() ==> is_built_item(#[trigger] items[k], es[k]),
    ensures
        meets_contract(item_summaries(items, n), es.take(n)),
    decreases n,
{
    if n > 0 {
        lemma_built_items(items, es, n - 1);
        assert(is_built_item(items[n - 1], es[n - 1]));
        lemma_built_item_summary(items[n - 1], es[n - 1]);
        let prev = item_summaries(items, n - 1);
        let cur = item_summaries(items, n);
        assert(es.take(n) =~= es.take(n - 1).push(es[n - 1]));
        assert forall|k: int| 0 <= k < cur.len() implies field_mismatch(#[trigger] cur[k], es.take(n)[k]) is None by {
            if k < prev.len() {
                assert(cur[k] == prev[k]);
            }
        }
    }
}

proof fn lemma_built_child(p: Playlist, name: Seq<char>, es: Seq<EntryView>)
    requires
        is_built_child(p, name, es),
    ensures
        meets_contract(node_summaries(p), es),
{
    match p.children_type {
        Some(PlaylistChildren::Items(items)) => {
            lemma_built_items(items@, es, es.len() as int);
            assert(es.take(es.len() as int) =~= es);
            assert(nodes_summaries(p.children@, 0) =~= Seq::<PlaylistItemSummary>::empty());
            assert(node_summaries(p) =~= item_summaries(items@, items@.len() as int));
        },
        _ => {},
    }
}

proof fn lemma_built_children(ps: Seq<Playlist>, children: Seq<(Seq<char>, Seq<EntryView>)>, n: int)
    requires
        0 <= n <= ps.len(),
        ps.len() == children.len(),
        forall|k: int| 0 <= k < children.len() ==> is_built_child(#[trigger] ps[k], children[k].0, children[k].1),
    ensures
        meets_contract(nodes_summaries(ps, n), children_entries(children, n)),
    decreases n,
{
    if n > 0 {
        lemma_built_children(ps, children, n - 1);
        assert(is_built_child(ps[n - 1], children[n - 1].0, children[n - 1].1));
        lemma_built_child(ps[n - 1], children[n - 1].0, children[n - 1].1);
        let a = nodes_summaries(ps, n - 1);
        let b = node_summaries(ps[n - 1]);
        let ea = children_entries(children, n - 1);
        let eb = children[n - 1].1;
        assert(nodes_summaries(ps, n) == a + b);
        assert(children_entries(children, n) == ea + eb);
        assert forall|k: int| 0 <= k < (a + b).len() implies field_mismatch(#[trigger] (a + b)[k], (ea + eb)[k]) is None by {
            if k < a.len() {
                assert((a + b)[k] == a[k]);
                assert((ea + eb)[k] == ea[k]);
            } else {
                assert((a + b)[k] == b[k - a.len()]);
                assert((ea + eb)[k] == eb[k - a.len()]);
            }
        }
    }
}

/// The presentation items of a built document meet the item contract of
/// the entries it was built from, in the children's order.
pub proof fn law_built_document_meets_entry_contract(
    d: PlaylistDocument,
    info: ApplicationInfo,
    children: Seq<(Seq<char>, Seq<EntryView>)>,
)
    requires
        is_built_document(d, info, children),
    ensures
        meets_contract(document_summaries(d), children_entries(children, children.len() as int)),
{
    match d.root_node {
        Some(root) => match root.children_type {
            Some(PlaylistChildren::Playlists(ps)) => {
                lemma_built_children(ps@, children, children.len() as int);
                assert(nodes_summaries(root.children@, 0) =~= Seq::<PlaylistItemSummary>::empty());
                assert(node_summaries(root) =~= nodes_summaries(ps@, ps@.len() as int));
            },
            _ => {},
        },
        None => {},
    }
}

proof fn lemma_set_children_entries(s: PlaylistSet, m: int)
    requires
        partitions(s.children_view(), s.entries_view().len() as int),
        1 <= m <= s.children_view().len(),
    ensures
        children_entries(set_children(s), m) == entry_views(s.entries_view()).subrange(
            0,
            s.children_view()[m - 1].2,
        ),
    decreases m,
{
    let c = s.children_view();
    let ev = entry_views(s.entries_view());
    lemma_partition_bounds(c, s.entries_view().len() as int, m - 1);
    let sub = entry_views(s.entries_view().subrange(c[m - 1].1, c[m - 1].2));
    assert(sub =~= ev.subrange(c[m - 1].1, c[m - 1].2));
    assert(set_children(s)[m - 1] == (c[m - 1].0, sub));
    if m == 1 {
        assert(children_entries(set_children(s), 0) =~= Seq::<EntryView>::empty());
        assert(children_entries(set_children(s), 1) =~= ev.subrange(0, c[0].2));
    } else {
        lemma_set_children_entries(s, m - 1);
        assert(c[m - 2].2 == c[m - 1].1);
        assert(ev.subrange(0, c[m - 2].2) + ev.subrange(c[m - 1].1, c[m - 1].2) =~= ev.subrange(0, c[m - 1].2));
    }
}

/// A document built from a playlist set carries, in order, one presentation
/// item per entry of the set, each meeting that entry's item contract; so
/// checking the document against the set's entries finds no field mismatch.
pub proof fn law_built_set_document_meets_entry_contract(
    s: PlaylistSet,
    d: PlaylistDocument,
    info: ApplicationInfo,
)
    requires
        partitions(s.children_view(), s.entries_view().len() as int),
        is_built_document(d, info, set_children(s)),
    ensures
        meets_contract(document_summaries(d), entry_views(s.entries_view())),
        forall|names: Seq<Option<Seq<char>>>|
            #![trigger validation_issue(document_summaries(d), entry_views(s.entries_view()), names)]
            (forall|k: int| 0 <= k < names.len() ==> (#[trigger] names[k]) is None) ==> validation_issue(
                document_summaries(d),
                entry_views(s.entries_view()),
                names,
            ) is None,
{
    law_built_document_meets_entry_contract(d, info, set_children(s));
    let c = s.children_view();
    lemma_set_children_entries(s, c.len() as int);
    assert(entry_views(s.entries_view()).subrange(0, c[c.len() - 1].2) =~= entry_views(s.entries_view()));
    assert forall|names: Seq<Option<Seq<char>>>|
        (forall|k: int| 0 <= k < names.len() ==> (#[trigger] names[k]) is None) implies validation_issue(
            document_summaries(d),
            entry_views(s.entries_view()),
            names,
        ) is None by {
        let ds = document_summaries(d);
        let es = entry_views(s.entries_view());
        let n = if names.len() < ds.len() { names.len() as int } else { ds.len() as int };
        lemma_no_issue_when_contract_met(ds, es, names, n);
    }
}

proof fn lemma_no_issue_when_contract_met(
    ds: Seq<PlaylistItemSummary>,
    es: Seq<EntryView>,
    names: Seq<Option<Seq<char>>>,
    n: int,
)
    requires
        meets_contract(ds, es),
        forall|k: int| 0 <= k < names.len() ==> (#[trigger] names[k]) is None,
        n <= ds.len(),
        n <= names.len(),
    ensures
        first_item_issue(ds, es, names, n) is None,
    decreases n,
{
    if n > 0 {
        lemma_no_issue_when_contract_met(ds, es, names, n - 1);
        assert(field_mismatch(ds[n - 1], es[n - 1]) is None);
        assert(names[n - 1] is None);
    }
}

} // verus!

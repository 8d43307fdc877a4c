//! Media dependency discovery for presentations.
//!
//! Every native file carrier of a presentation (chord charts, media actions
//! and their markers, slide fills, text media fills, data-link feeds, external
//! presentations and the timeline) is visited in document order. Each URL
//! yields a [`MediaDependency`] through its native locator, and a locator is
//! listed once, at its first occurrence. Data-link feeds and web content are
//! kept only when they have a local candidate.
use vstd::prelude::*;
use crate::document::{
    Action, ActionData, BaseSlide, CustomAttribute, Cue, DataLink, GraphicsElement, GraphicsFill,
    GraphicsText,
    Media, MediaFile, MediaFill, MediaMarker, MediaTypeProperties, Presentation,
    PresentationSlide, SlideElement, SlideKind, TextAttributes, Timeline, TimelineCue, Url,
};
use crate::native_url::{
    candidates_of, first_available, locator_of, path_components, path_in, push_all_unique, push_unique_path,
    str_opt_view, string_views, LocatorView, NativeFileLocator, NativeFileResolution,
};
use crate::naming::path_join;

verus! {

/// A checked media file reference found inside a presentation.
pub struct MediaDependency {
    locator: NativeFileLocator,
}

impl View for MediaDependency {
    type V = LocatorView;

    closed spec fn view(&self) -> LocatorView {
        self.locator@
    }
}

/// Checked filesystem state of a native media dependency.
#[derive(Debug, PartialEq, Eq)]
pub enum MediaDependencyResolution {
    /// The preferred native candidate exists as a regular file.
    Available(String),
    /// The locator is local, but none of its candidates currently exists.
    Missing(String),
    /// The native reference has no safe local candidate.
    Unresolved,
}

impl MediaDependency {
    /// The dependency of one native URL; `None` when the URL holds no
    /// non-blank source.
    pub fn from_url(u: &Url) -> (r: Option<MediaDependency>)
        ensures
            match r {
                Some(d) => locator_of(*u) == Some(d@),
                None => locator_of(*u) is None,
            },
    {
        match NativeFileLocator::from_url(u) {
            Some(locator) => Some(MediaDependency { locator }),
            None => None,
        }
    }

    /// Original URL/path string stored in the presentation.
    pub fn source(&self) -> (r: &str)
        ensures
            r@ == self@.0,
    {
        self.locator.source()
    }

    /// Stored absolute path retained for diagnostics; resolution prefers
    /// the active show-relative locator.
    pub fn stored_absolute_path(&self) -> (r: Option<String>)
        ensures
            match r {
                Some(p) => self@.2.len() > 0 && p@ == self@.2[0],
                None => self@.2.len() == 0,
            },
    {
        self.locator.stored_absolute_path()
    }

    /// Final decoded path component, when one is available.
    pub fn basename(&self) -> (r: Option<&str>)
        ensures
            match r {
                Some(b) => self@.3 == Some(b@),
                None => self@.3 is None,
            },
    {
        self.locator.basename()
    }

    /// Resolve this dependency, given the paths that exist as regular
    /// files, without collapsing missing and non-local states.
    pub fn resolve(&self, show_root: Option<&str>, existing: &Vec<String>) -> (r: MediaDependencyResolution)
        ensures
            ({
                let c = candidates_of(self@, str_opt_view(show_root));
                let e = string_views(existing@);
                match r {
                    MediaDependencyResolution::Available(p) => exists|i: int|
                        #[trigger] first_available(c, e, i) && p@ == c[i],
                    MediaDependencyResolution::Missing(p) => c.len() > 0 && p@ == c[0] && forall|i: int|
                        0 <= i < c.len() ==> !path_in(e, #[trigger] c[i]),
                    MediaDependencyResolution::Unresolved => c.len() == 0,
                }
            }),
    {
        match self.locator.resolve(show_root, existing) {
            NativeFileResolution::Available(p) => MediaDependencyResolution::Available(p),
            NativeFileResolution::Missing(p) => MediaDependencyResolution::Missing(p),
            NativeFileResolution::Unresolved => MediaDependencyResolution::Unresolved,
        }
    }

    /// Whether the locator has a local candidate.
    pub fn has_local_locator(&self) -> (r: bool)
        ensures
            r == has_local(self@),
    {
        self.locator.has_local_candidate()
    }
}

// ---------------------------------------------------------------------------
// The carriers of a presentation, in document order
// ---------------------------------------------------------------------------

/// A carried URL and whether it counts only with a local candidate.
pub type UrlRef = (Url, bool);

/// Whether a locator has a local candidate.
pub open spec fn has_local(l: LocatorView) -> bool {
    l.1.len() > 0 || l.2.len() > 0
}

/// The reference of an optional URL.
pub open spec fn url_ref(u: Option<Url>, local_only: bool) -> Seq<UrlRef> {
    match u {
        Some(u) => seq![(u, local_only)],
        None => Seq::empty(),
    }
}

/// The reference of a media file's local URL.
pub open spec fn file_refs(f: Option<MediaFile>) -> Seq<UrlRef> {
    match f {
        Some(f) => url_ref(f.local_url, false),
        None => Seq::empty(),
    }
}

/// The references of a media element: its URL, then its typed file or
/// web content.
pub open spec fn media_refs(m: Media) -> Seq<UrlRef> {
    url_ref(m.url, false) + typed_refs(m.type_properties)
}

/// The references of a media element's typed properties.
pub open spec fn typed_refs(t: Option<MediaTypeProperties>) -> Seq<UrlRef> {
    match t {
        Some(MediaTypeProperties::Audio { file }) => file_refs(file),
        Some(MediaTypeProperties::Image { file }) => file_refs(file),
        Some(MediaTypeProperties::Video { file }) => file_refs(file),
        Some(MediaTypeProperties::WebContent { url }) => url_ref(url, true),
        _ => Seq::empty(),
    }
}

/// The references of an optional media element.
pub open spec fn media_opt_refs(m: Option<Media>) -> Seq<UrlRef> {
    match m {
        Some(m) => media_refs(m),
        None => Seq::empty(),
    }
}

/// The references of an optional media fill.
pub open spec fn media_fill_refs(f: Option<MediaFill>) -> Seq<UrlRef> {
    match f {
        Some(f) => media_opt_refs(f.media),
        None => Seq::empty(),
    }
}

/// The references of custom text attributes, in order.
pub open spec fn custom_refs(s: Seq<CustomAttribute>) -> Seq<UrlRef>
    decreases s.len(),
{
    if s.len() == 0 {
        Seq::empty()
    } else {
        custom_refs(s.drop_last()) + media_fill_refs(s.last().media_fill)
    }
}

/// The references of text attributes: the fill, then custom attributes.
pub open spec fn attributes_refs(a: TextAttributes) -> Seq<UrlRef> {
    media_fill_refs(a.media_fill) + custom_refs(a.custom_attributes@)
}

/// The references of optional text attributes.
pub open spec fn attributes_opt_refs(a: Option<TextAttributes>) -> Seq<UrlRef> {
    match a {
        Some(a) => attributes_refs(a),
        None => Seq::empty(),
    }
}

/// The references of a data link; feeds count only when local.
pub open spec fn data_link_refs(d: DataLink) -> Seq<UrlRef> {
    match d {
        DataLink::FileFeed(u) => url_ref(u, true),
        DataLink::RssFeed(u) => url_ref(u, true),
        DataLink::TickerFile(u) => url_ref(u, true),
        DataLink::TickerRss(u) => url_ref(u, true),
        DataLink::Other => Seq::empty(),
    }
}

/// The references of data links, in order.
pub open spec fn data_links_refs(s: Seq<DataLink>) -> Seq<UrlRef>
    decreases s.len(),
{
    if s.len() == 0 {
        Seq::empty()
    } else {
        data_links_refs(s.drop_last()) + data_link_refs(s.last())
    }
}

/// The references of a graphics fill.
pub open spec fn fill_refs(f: Option<GraphicsFill>) -> Seq<UrlRef> {
    match f {
        Some(f) => media_opt_refs(f.media),
        None => Seq::empty(),
    }
}

/// The references of a graphics text.
pub open spec fn text_refs(t: Option<GraphicsText>) -> Seq<UrlRef> {
    match t {
        Some(t) => attributes_opt_refs(t.attributes),
        None => Seq::empty(),
    }
}

/// The references of a slide element: fill, text, then data links.
pub open spec fn element_refs(e: SlideElement) -> Seq<UrlRef> {
    graphics_refs(e.element) + data_links_refs(e.data_links@)
}

/// The references of an optional graphics element: fill, then text.
pub open spec fn graphics_refs(g: Option<GraphicsElement>) -> Seq<UrlRef> {
    match g {
        Some(g) => fill_refs(g.fill) + text_refs(g.text),
        None => Seq::empty(),
    }
}

/// The references of slide elements, in order.
pub open spec fn elements_refs(s: Seq<SlideElement>) -> Seq<UrlRef>
    decreases s.len(),
{
    if s.len() == 0 {
        Seq::empty()
    } else {
        elements_refs(s.drop_last()) + element_refs(s.last())
    }
}

/// The references of an optional base slide.
pub open spec fn base_refs(b: Option<BaseSlide>) -> Seq<UrlRef> {
    match b {
        Some(b) => elements_refs(b.elements@),
        None => Seq::empty(),
    }
}

/// The references of a presentation slide: chord chart, base slide, notes.
pub open spec fn presentation_slide_refs(s: PresentationSlide) -> Seq<UrlRef> {
    url_ref(s.chord_chart, false) + base_refs(s.base_slide) + attributes_opt_refs(s.notes_attributes)
}

/// The references of an action.
pub open spec fn action_refs(a: Action) -> Seq<UrlRef>
    decreases a, 1int,
{
    match a.data {
        Some(ActionData::Media { element, markers }) => media_opt_refs(element) + markers_refs(
            markers@,
            markers@.len() as int,
        ),
        Some(ActionData::Slide { slide: Some(SlideKind::Presentation(s)) }) => presentation_slide_refs(s),
        Some(ActionData::Slide { slide: Some(SlideKind::Prop(p)) }) => base_refs(p.base_slide),
        Some(ActionData::ExternalPresentation { url }) => url_ref(url, false),
        _ => Seq::empty(),
    }
}

/// The references of the first `n` markers.
pub open spec fn markers_refs(ms: Seq<MediaMarker>, n: int) -> Seq<UrlRef>
    decreases ms, n,
{
    if n <= 0 || n > ms.len() {
        Seq::empty()
    } else {
        markers_refs(ms, n - 1) + actions_refs(ms[n - 1].actions@, ms[n - 1].actions@.len() as int)
    }
}

/// The references of the first `n` actions.
pub open spec fn actions_refs(s: Seq<Action>, n: int) -> Seq<UrlRef>
    decreases s, n,
{
    if n <= 0 || n > s.len() {
        Seq::empty()
    } else {
        actions_refs(s, n - 1) + action_refs(s[n - 1])
    }
}

/// The references of an optional action.
pub open spec fn action_opt_refs(a: Option<Action>) -> Seq<UrlRef> {
    match a {
        Some(a) => action_refs(a),
        None => Seq::empty(),
    }
}

/// The references of timeline cues, in order.
pub open spec fn timeline_cues_refs(s: Seq<TimelineCue>) -> Seq<UrlRef>
    decreases s.len(),
{
    if s.len() == 0 {
        Seq::empty()
    } else {
        timeline_cues_refs(s.drop_last()) + action_opt_refs(s.last().action)
    }
}

/// The references of a timeline: its audio action, then both cue lists.
pub open spec fn timeline_refs(t: Option<Timeline>) -> Seq<UrlRef> {
    match t {
        Some(t) => action_opt_refs(t.audio_action) + timeline_cues_refs(t.cues@) + timeline_cues_refs(
            t.cues_v2@,
        ),
        None => Seq::empty(),
    }
}

/// The references of cues, in order.
pub open spec fn cues_refs(s: Seq<Cue>) -> Seq<UrlRef>
    decreases s.len(),
{
    if s.len() == 0 {
        Seq::empty()
    } else {
        cues_refs(s.drop_last()) + actions_refs(s.last().actions@, s.last().actions@.len() as int)
    }
}

/// The references of a presentation: chord chart, cues, then timeline.
pub open spec fn presentation_refs(p: Presentation) -> Seq<UrlRef> {
    url_ref(p.chord_chart, false) + cues_refs(p.cues@) + timeline_refs(p.timeline)
}

// ---------------------------------------------------------------------------
// Collecting unique dependencies
// ---------------------------------------------------------------------------

/// `acc` after one reference: its locator is appended unless it has none,
/// it counts only when local and has no local candidate, or it is listed.
pub open spec fn add_ref(acc: Seq<LocatorView>, r: UrlRef) -> Seq<LocatorView> {
    match locator_of(r.0) {
        Some(l) => if (r.1 && !has_local(l)) || acc.contains(l) {
            acc
        } else {
            acc.push(l)
        },
        None => acc,
    }
}

/// `acc` after each of `refs` in turn.
pub open spec fn add_refs(acc: Seq<LocatorView>, refs: Seq<UrlRef>) -> Seq<LocatorView>
    decreases refs.len(),
{
    if refs.len() == 0 {
        acc
    } else {
        add_ref(add_refs(acc, refs.drop_last()), refs.last())
    }
}

/// The locator views of dependencies.
pub open spec fn dependency_views(d: Seq<MediaDependency>) -> Seq<LocatorView> {
    d.map_values(|x: MediaDependency| x@)
}

/// The dependencies of a presentation.
pub open spec fn presentation_dependencies(p: Presentation) -> Seq<LocatorView> {
    add_refs(Seq::empty(), presentation_refs(p))
}

/// Whether no locator occurs twice.
pub open spec fn no_duplicates(s: Seq<LocatorView>) -> bool {
    forall|i: int, j: int| 0 <= i < j < s.len() ==> s[i] != s[j]
}

proof fn lemma_add_refs_append(acc: Seq<LocatorView>, a: Seq<UrlRef>, b: Seq<UrlRef>)
    ensures
        add_refs(acc, a + b) == add_refs(add_refs(acc, a), b),
    decreases b.len(),
{
    if b.len() == 0 {
        assert(a + b =~= a);
    } else {
        assert((a + b).drop_last() =~= a + b.drop_last());
        assert((a + b).last() == b.last());
        lemma_add_refs_append(acc, a, b.drop_last());
    }
}

proof fn lemma_add_refs_unique(acc: Seq<LocatorView>, refs: Seq<UrlRef>)
    requires
        no_duplicates(acc),
    ensures
        no_duplicates(add_refs(acc, refs)),
    decreases refs.len(),
{
    if refs.len() > 0 {
        lemma_add_refs_unique(acc, refs.drop_last());
        let before = add_refs(acc, refs.drop_last());
        let after = add_refs(acc, refs);
        assert forall|i: int, j: int| 0 <= i < j < after.len() implies after[i] != after[j] by {
            if j == before.len() {
                assert(before.contains(before[i]));
            }
        }
    }
}

/// `v` with the locator of `u` added as [`add_ref`] says.
fn push_url(u: &Url, local_only: bool, v: &mut Vec<MediaDependency>)
    ensures
        dependency_views(final(v)@) == add_ref(dependency_views(old(v)@), (*u, local_only)),
{
    let d = match MediaDependency::from_url(u) {
        Some(d) => d,
        None => return,
    };
    if local_only && !d.has_local_locator() {
        return;
    }
    let ghost dv = dependency_views(v@);
    let mut i: usize = 0;
    while i < v.len()
        invariant
            i <= v.len(),
            dv == dependency_views(v@),
            locator_of(*u) == Some(d@),
            !(local_only && !has_local(d@)),
            forall|k: int| 0 <= k < i ==> dv[k] != d@,
        decreases v.len() - i,
    {
        if v[i].locator.same_as(&d.locator) {
            proof {
                assert(dv[i as int] == d@);
                assert(dv.contains(d@));
            }
            return;
        }
        i += 1;
    }
    proof {
        assert(!dv.contains(d@));
    }
    v.push(d);
    proof {
        assert(dependency_views(v@) =~= dv.push(d@));
    }
}

fn push_url_opt(u: &Option<Url>, local_only: bool, v: &mut Vec<MediaDependency>)
    ensures
        dependency_views(final(v)@) == add_refs(dependency_views(old(v)@), url_ref(*u, local_only)),
{
    proof {
        reveal_with_fuel(add_refs, 2);
    }
    match u {
        Some(u) => {
            push_url(u, local_only, v);
            proof {
                assert(url_ref(Some(*u), local_only).drop_last() =~= Seq::<UrlRef>::empty());
            }
        },
        None => {},
    }
}

fn push_media(m: &Media, v: &mut Vec<MediaDependency>)
    ensures
        dependency_views(final(v)@) == add_refs(dependency_views(old(v)@), media_refs(*m)),
{
    let ghost start = dependency_views(v@);
    push_url_opt(&m.url, false, v);
    let ghost tail = typed_refs(m.type_properties);
    match &m.type_properties {
        Some(MediaTypeProperties::Audio { file }) => push_file(file, v),
        Some(MediaTypeProperties::Image { file }) => push_file(file, v),
        Some(MediaTypeProperties::Video { file }) => push_file(file, v),
        Some(MediaTypeProperties::WebContent { url }) => push_url_opt(url, true, v),
        _ => {},
    }
    proof {
        lemma_add_refs_append(start, url_ref(m.url, false), tail);
    }
}

fn push_file(f: &Option<MediaFile>, v: &mut Vec<MediaDependency>)
    ensures
        dependency_views(final(v)@) == add_refs(dependency_views(old(v)@), file_refs(*f)),
{
    match f {
        Some(f) => push_url_opt(&f.local_url, false, v),
        None => {},
    }
}

fn push_media_opt(m: &Option<Media>, v: &mut Vec<MediaDependency>)
    ensures
        dependency_views(final(v)@) == add_refs(dependency_views(old(v)@), media_opt_refs(*m)),
{
    match m {
        Some(m) => push_media(m, v),
        None => {},
    }
}

fn push_media_fill(f: &Option<MediaFill>, v: &mut Vec<MediaDependency>)
    ensures
        dependency_views(final(v)@) == add_refs(dependency_views(old(v)@), media_fill_refs(*f)),
{
    match f {
        Some(f) => push_media_opt(&f.media, v),
        None => {},
    }
}

fn push_attributes(a: &TextAttributes, v: &mut Vec<MediaDependency>)
    ensures
        dependency_views(final(v)@) == add_refs(dependency_views(old(v)@), attributes_refs(*a)),
{
    let ghost start = dependency_views(v@);
    push_media_fill(&a.media_fill, v);
    let ghost mid = dependency_views(v@);
    let mut i: usize = 0;
    proof {
        assert(a.custom_attributes@.take(0) =~= Seq::<CustomAttribute>::empty());
    }
    while i < a.custom_attributes.len()
        invariant
            i <= a.custom_attributes.len(),
            dependency_views(v@) == add_refs(mid, custom_refs(a.custom_attributes@.take(i as int))),
        decreases a.custom_attributes.len() - i,
    {
        let ghost before = dependency_views(v@);
        push_media_fill(&a.custom_attributes[i].media_fill, v);
        proof {
            let s = a.custom_attributes@.take(i + 1);
            assert(s.drop_last() =~= a.custom_attributes@.take(i as int));
            assert(s.last() == a.custom_attributes@[i as int]);
            lemma_add_refs_append(mid, custom_refs(s.drop_last()), media_fill_refs(s.last().media_fill));
        }
        i += 1;
    }
    proof {
        assert(a.custom_attributes@.take(a.custom_attributes.len() as int) =~= a.custom_attributes@);
        lemma_add_refs_append(start, media_fill_refs(a.media_fill), custom_refs(a.custom_attributes@));
    }
}

fn push_attributes_opt(a: &Option<TextAttributes>, v: &mut Vec<MediaDependency>)
    ensures
        dependency_views(final(v)@) == add_refs(dependency_views(old(v)@), attributes_opt_refs(*a)),
{
    match a {
        Some(a) => push_attributes(a, v),
        None => {},
    }
}

fn push_data_link(d: &DataLink, v: &mut Vec<MediaDependency>)
    ensures
        dependency_views(final(v)@) == add_refs(dependency_views(old(v)@), data_link_refs(*d)),
{
    match d {
        DataLink::FileFeed(u) => push_url_opt(u, true, v),
        DataLink::RssFeed(u) => push_url_opt(u, true, v),
        DataLink::TickerFile(u) => push_url_opt(u, true, v),
        DataLink::TickerRss(u) => push_url_opt(u, true, v),
        DataLink::Other => {},
    }
}

fn push_element(e: &SlideElement, v: &mut Vec<MediaDependency>)
    ensures
        dependency_views(final(v)@) == add_refs(dependency_views(old(v)@), element_refs(*e)),
{
    let ghost start = dependency_views(v@);
    let ghost head = graphics_refs(e.element);
    match &e.element {
        Some(g) => {
            match &g.fill {
                Some(f) => push_media_opt(&f.media, v),
                None => {},
            }
            let ghost mid = dependency_views(v@);
            match &g.text {
                Some(t) => push_attributes_opt(&t.attributes, v),
                None => {},
            }
            proof {
                lemma_add_refs_append(start, fill_refs(g.fill), text_refs(g.text));
            }
        },
        None => {},
    }
    let ghost mid = dependency_views(v@);
    let mut i: usize = 0;
    proof {
        assert(e.data_links@.take(0) =~= Seq::<DataLink>::empty());
    }
    while i < e.data_links.len()
        invariant
            i <= e.data_links.len(),
            dependency_views(v@) == add_refs(mid, data_links_refs(e.data_links@.take(i as int))),
        decreases e.data_links.len() - i,
    {
        push_data_link(&e.data_links[i], v);
        proof {
            let s = e.data_links@.take(i + 1);
            assert(s.drop_last() =~= e.data_links@.take(i as int));
            lemma_add_refs_append(mid, data_links_refs(s.drop_last()), data_link_refs(s.last()));
        }
        i += 1;
    }
    proof {
        assert(e.data_links@.take(e.data_links.len() as int) =~= e.data_links@);
        lemma_add_refs_append(start, head, data_links_refs(e.data_links@));
    }
}

fn push_base(b: &Option<BaseSlide>, v: &mut Vec<MediaDependency>)
    ensures
        dependency_views(final(v)@) == add_refs(dependency_views(old(v)@), base_refs(*b)),
{
    match b {
        Some(b) => {
            let ghost start = dependency_views(v@);
            let mut i: usize = 0;
            proof {
                assert(b.elements@.take(0) =~= Seq::<SlideElement>::empty());
            }
            while i < b.elements.len()
                invariant
                    i <= b.elements.len(),
                    dependency_views(v@) == add_refs(start, elements_refs(b.elements@.take(i as int))),
                decreases b.elements.len() - i,
            {
                push_element(&b.elements[i], v);
                proof {
                    let s = b.elements@.take(i + 1);
                    assert(s.drop_last() =~= b.elements@.take(i as int));
                    lemma_add_refs_append(start, elements_refs(s.drop_last()), element_refs(s.last()));
                }
                i += 1;
            }
            proof {
                assert(b.elements@.take(b.elements.len() as int) =~= b.elements@);
            }
        },
        None => {},
    }
}

fn push_presentation_slide(s: &PresentationSlide, v: &mut Vec<MediaDependency>)
    ensures
        dependency_views(final(v)@) == add_refs(dependency_views(old(v)@), presentation_slide_refs(*s)),
{
    let ghost start = dependency_views(v@);
    push_url_opt(&s.chord_chart, false, v);
    push_base(&s.base_slide, v);
    push_attributes_opt(&s.notes_attributes, v);
    proof {
        lemma_add_refs_append(start, url_ref(s.chord_chart, false), base_refs(s.base_slide));
        lemma_add_refs_append(
            start,
            url_ref(s.chord_chart, false) + base_refs(s.base_slide),
            attributes_opt_refs(s.notes_attributes),
        );
    }
}

fn push_action(a: &Action, v: &mut Vec<MediaDependency>)
    ensures
        dependency_views(final(v)@) == add_refs(dependency_views(old(v)@), action_refs(*a)),
    decreases a, 1int,
{
    match &a.data {
        Some(ActionData::Media { element, markers }) => {
            let ghost start = dependency_views(v@);
            push_media_opt(element, v);
            let ghost mid = dependency_views(v@);
            let mut i: usize = 0;
            while i < markers.len()
                invariant
                    i <= markers.len(),
                    a.data == Some(ActionData::Media { element: *element, markers: *markers }),
                    dependency_views(v@) == add_refs(mid, markers_refs(markers@, i as int)),
                decreases markers.len() - i,
            {
                proof {
                    let ghost d = a.data;
                    assert(decreases_to!(*a => d));
                    assert(decreases_to!(d => d->0));
                    assert(decreases_to!(d->0 => d->0->markers));
                    assert(decreases_to!(*markers => markers@));
                    assert(decreases_to!(markers@ => markers@[i as int]));
                    assert(decreases_to!(markers@[i as int] => markers@[i as int].actions));
                    assert(decreases_to!(*a => markers@[i as int].actions));
                }
                push_actions(&markers[i].actions, v);
                proof {
                    lemma_add_refs_append(
                        mid,
                        markers_refs(markers@, i as int),
                        actions_refs(markers@[i as int].actions@, markers@[i as int].actions@.len() as int),
                    );
                }
                i += 1;
            }
            proof {
                lemma_add_refs_append(start, media_opt_refs(*element), markers_refs(markers@, markers@.len() as int));
            }
        },
        Some(ActionData::Slide { slide: Some(SlideKind::Presentation(s)) }) => push_presentation_slide(s, v),
        Some(ActionData::Slide { slide: Some(SlideKind::Prop(p)) }) => push_base(&p.base_slide, v),
        Some(ActionData::ExternalPresentation { url }) => push_url_opt(url, false, v),
        _ => {},
    }
}

fn push_actions(actions: &Vec<Action>, v: &mut Vec<MediaDependency>)
    ensures
        dependency_views(final(v)@) == add_refs(
            dependency_views(old(v)@),
            actions_refs(actions@, actions@.len() as int),
        ),
    decreases actions, 0int,
{
    let ghost start = dependency_views(v@);
    let mut i: usize = 0;
    while i < actions.len()
        invariant
            i <= actions.len(),
            dependency_views(v@) == add_refs(start, actions_refs(actions@, i as int)),
        decreases actions.len() - i,
    {
        proof {
            assert(decreases_to!(*actions => actions@[i as int]));
        }
        push_action(&actions[i], v);
        proof {
            lemma_add_refs_append(start, actions_refs(actions@, i as int), action_refs(actions@[i as int]));
        }
        i += 1;
    }
}

fn push_action_opt(a: &Option<Action>, v: &mut Vec<MediaDependency>)
    ensures
        dependency_views(final(v)@) == add_refs(dependency_views(old(v)@), action_opt_refs(*a)),
{
    match a {
        Some(a) => push_action(a, v),
        None => {},
    }
}

fn push_timeline_cues(cues: &Vec<TimelineCue>, v: &mut Vec<MediaDependency>)
    ensures
        dependency_views(final(v)@) == add_refs(dependency_views(old(v)@), timeline_cues_refs(cues@)),
{
    let ghost start = dependency_views(v@);
    let mut i: usize = 0;
    proof {
        assert(cues@.take(0) =~= Seq::<TimelineCue>::empty());
    }
    while i < cues.len()
        invariant
            i <= cues.len(),
            dependency_views(v@) == add_refs(start, timeline_cues_refs(cues@.take(i as int))),
        decreases cues.len() - i,
    {
        push_action_opt(&cues[i].action, v);
        proof {
            let s = cues@.take(i + 1);
            assert(s.drop_last() =~= cues@.take(i as int));
            lemma_add_refs_append(start, timeline_cues_refs(s.drop_last()), action_opt_refs(s.last().action));
        }
        i += 1;
    }
    proof {
        assert(cues@.take(cues.len() as int) =~= cues@);
    }
}

fn push_timeline(t: &Option<Timeline>, v: &mut Vec<MediaDependency>)
    ensures
        dependency_views(final(v)@) == add_refs(dependency_views(old(v)@), timeline_refs(*t)),
{
    match t {
        Some(t) => {
            let ghost start = dependency_views(v@);
            push_action_opt(&t.audio_action, v);
            push_timeline_cues(&t.cues, v);
            push_timeline_cues(&t.cues_v2, v);
            proof {
                lemma_add_refs_append(start, action_opt_refs(t.audio_action), timeline_cues_refs(t.cues@));
                lemma_add_refs_append(
                    start,
                    action_opt_refs(t.audio_action) + timeline_cues_refs(t.cues@),
                    timeline_cues_refs(t.cues_v2@),
                );
            }
        },
        None => {},
    }
}

/// Every unique media dependency of a presentation, in document order.
pub fn presentation_media_dependencies(presentation: &Presentation) -> (r: Vec<MediaDependency>)
    ensures
        dependency_views(r@) == presentation_dependencies(*presentation),
        no_duplicates(dependency_views(r@)),
{
    let mut v: Vec<MediaDependency> = Vec::new();
    proof {
        assert(dependency_views(v@) =~= Seq::<LocatorView>::empty());
    }
    push_url_opt(&presentation.chord_chart, false, &mut v);
    let ghost mid = dependency_views(v@);
    let mut i: usize = 0;
    proof {
        assert(presentation.cues@.take(0) =~= Seq::<Cue>::empty());
    }
    while i < presentation.cues.len()
        invariant
            i <= presentation.cues.len(),
            dependency_views(v@) == add_refs(mid, cues_refs(presentation.cues@.take(i as int))),
        decreases presentation.cues.len() - i,
    {
        push_actions(&presentation.cues[i].actions, &mut v);
        proof {
            let s = presentation.cues@.take(i + 1);
            assert(s.drop_last() =~= presentation.cues@.take(i as int));
            lemma_add_refs_append(
                mid,
                cues_refs(s.drop_last()),
                actions_refs(s.last().actions@, s.last().actions@.len() as int),
            );
        }
        i += 1;
    }
    push_timeline(&presentation.timeline, &mut v);
    proof {
        let p = *presentation;
        assert(p.cues@.take(p.cues@.len() as int) =~= p.cues@);
        lemma_add_refs_append(Seq::empty(), url_ref(p.chord_chart, false), cues_refs(p.cues@));
        lemma_add_refs_append(
            Seq::empty(),
            url_ref(p.chord_chart, false) + cues_refs(p.cues@),
            timeline_refs(p.timeline),
        );
        lemma_add_refs_unique(Seq::empty(), presentation_refs(p));
    }
    v
}

/// Every unique media dependency inherited from one presentation slide.
pub fn presentation_slide_media_dependencies(slide: &PresentationSlide) -> (r: Vec<MediaDependency>)
    ensures
        dependency_views(r@) == add_refs(Seq::empty(), presentation_slide_refs(*slide)),
        no_duplicates(dependency_views(r@)),
{
    let mut v: Vec<MediaDependency> = Vec::new();
    proof {
        assert(dependency_views(v@) =~= Seq::<LocatorView>::empty());
    }
    push_presentation_slide(slide, &mut v);
    proof {
        lemma_add_refs_unique(Seq::empty(), presentation_slide_refs(*slide));
    }
    v
}

/// Law: a dependency with one show-relative path and one stored absolute
/// path (a different file) tries the file under the active show root
/// first. So it resolves to the show file when that exists, even where the
/// stale stored path still exists; to the stored path only when the show
/// file is missing; and, without a show root, to the stored path alone.
pub proof fn law_active_show_media_wins(d: LocatorView, root: Seq<char>, existing: Seq<Seq<char>>)
    requires
        d.1.len() == 1,
        d.2.len() == 1,
        path_components(path_join(root, d.1[0])) != path_components(d.2[0]),
    ensures
        ({
            let j = path_join(root, d.1[0]);
            let a = d.2[0];
            let c = candidates_of(d, Some(root));
            &&& c == seq![j, a]
            &&& path_in(existing, j) ==> first_available(c, existing, 0)
            &&& !path_in(existing, j) && path_in(existing, a) ==> first_available(c, existing, 1)
            &&& (!path_in(existing, j) && !path_in(existing, a)) ==> forall|i: int|
                0 <= i < c.len() ==> !path_in(existing, #[trigger] c[i])
            &&& candidates_of(d, None) == seq![a]
        }),
{
    let j = path_join(root, d.1[0]);
    let a = d.2[0];
    let e = Seq::<Seq<char>>::empty();
    let js = d.1.map_values(|p: Seq<char>| path_join(root, p));
    assert(js =~= seq![j]);
    assert(js.drop_last() =~= e);
    assert(push_all_unique(e, js.drop_last()) == e);
    assert(push_unique_path(e, j) =~= seq![j]);
    assert(push_all_unique(e, js) == seq![j]);
    assert(d.2.drop_last() =~= e);
    assert(push_all_unique(seq![j], d.2.drop_last()) == seq![j]);
    assert(!exists|i: int| 0 <= i < seq![j].len() && path_components(#[trigger] seq![j][i]) == path_components(a)) by {
        assert forall|i: int| 0 <= i < seq![j].len() implies path_components(#[trigger] seq![j][i]) != path_components(a) by {
            assert(seq![j][i] == j);
        }
    }
    assert(push_unique_path(seq![j], a) =~= seq![j, a]);
    let c = candidates_of(d, Some(root));
    assert(c == seq![j, a]);
    assert(c[0] == j && c[1] == a);
    assert(push_all_unique(e, d.2.drop_last()) == e);
    assert(push_unique_path(e, a) =~= seq![a]);
    assert(candidates_of(d, None) == seq![a]);
}

// ---------------------------------------------------------------------------
// Law: every fill media URL of a slide element is a dependency
// ---------------------------------------------------------------------------

/// `u` is a URL a media element carries for a local file: its own URL, or
/// the file URL of its audio, image or video properties.
pub open spec fn media_file_url(m: Media, u: Url) -> bool {
    ||| m.url == Some(u)
    ||| m.type_properties matches Some(MediaTypeProperties::Image { file: Some(f) }) && f.local_url == Some(u)
    ||| m.type_properties matches Some(MediaTypeProperties::Video { file: Some(f) }) && f.local_url == Some(u)
    ||| m.type_properties matches Some(MediaTypeProperties::Audio { file: Some(f) }) && f.local_url == Some(u)
}

/// Element `e`'s graphics fill carries the media URL `u`.
pub open spec fn element_fill_url(e: SlideElement, u: Url) -> bool {
    match e.element {
        Some(g) => match g.fill {
            Some(f) => match f.media {
                Some(m) => media_file_url(m, u),
                None => false,
            },
            None => false,
        },
        None => false,
    }
}

/// Action `a` shows a presentation slide whose base-slide element `ei`
/// has a graphics fill carrying the media URL `u`.
pub open spec fn action_fill_url(a: Action, ei: int, u: Url) -> bool {
    match a.data {
        Some(ActionData::Slide { slide: Some(SlideKind::Presentation(s)) }) => match s.base_slide {
            Some(b) => 0 <= ei < b.elements@.len() && element_fill_url(b.elements@[ei], u),
            None => false,
        },
        _ => false,
    }
}

proof fn lemma_in_left(a: Seq<UrlRef>, b: Seq<UrlRef>, x: UrlRef)
    requires
        a.contains(x),
    ensures
        (a + b).contains(x),
{
    let i = choose|i: int| 0 <= i < a.len() && a[i] == x;
    assert((a + b)[i] == x);
}

proof fn lemma_in_right(a: Seq<UrlRef>, b: Seq<UrlRef>, x: UrlRef)
    requires
        b.contains(x),
    ensures
        (a + b).contains(x),
{
    let i = choose|i: int| 0 <= i < b.len() && b[i] == x;
    assert((a + b)[a.len() + i] == x);
}

proof fn lemma_media_ref(m: Media, u: Url)
    requires
        media_file_url(m, u),
    ensures
        media_refs(m).contains((u, false)),
{
    if m.url == Some(u) {
        assert(url_ref(m.url, false)[0] == (u, false));
        lemma_in_left(url_ref(m.url, false), typed_refs(m.type_properties), (u, false));
    } else {
        assert(typed_refs(m.type_properties)[0] == (u, false));
        lemma_in_right(url_ref(m.url, false), typed_refs(m.type_properties), (u, false));
    }
}

proof fn lemma_elements_ref(s: Seq<SlideElement>, ei: int, x: UrlRef)
    requires
        0 <= ei < s.len(),
        element_refs(s[ei]).contains(x),
    ensures
        elements_refs(s).contains(x),
    decreases s.len(),
{
    if ei == s.len() - 1 {
        lemma_in_right(elements_refs(s.drop_last()), element_refs(s.last()), x);
    } else {
        assert(s.drop_last()[ei] == s[ei]);
        lemma_elements_ref(s.drop_last(), ei, x);
        lemma_in_left(elements_refs(s.drop_last()), element_refs(s.last()), x);
    }
}

proof fn lemma_actions_ref(s: Seq<Action>, n: int, ai: int, x: UrlRef)
    requires
        0 <= ai < n <= s.len(),
        action_refs(s[ai]).contains(x),
    ensures
        actions_refs(s, n).contains(x),
    decreases n,
{
    if ai == n - 1 {
        lemma_in_right(actions_refs(s, n - 1), action_refs(s[n - 1]), x);
    } else {
        lemma_actions_ref(s, n - 1, ai, x);
        lemma_in_left(actions_refs(s, n - 1), action_refs(s[n - 1]), x);
    }
}

proof fn lemma_cues_ref(s: Seq<Cue>, ci: int, x: UrlRef)
    requires
        0 <= ci < s.len(),
        actions_refs(s[ci].actions@, s[ci].actions@.len() as int).contains(x),
    ensures
        cues_refs(s).contains(x),
    decreases s.len(),
{
    if ci == s.len() - 1 {
        lemma_in_right(cues_refs(s.drop_last()), actions_refs(s.last().actions@, s.last().actions@.len() as int), x);
    } else {
        assert(s.drop_last()[ci] == s[ci]);
        lemma_cues_ref(s.drop_last(), ci, x);
        lemma_in_left(cues_refs(s.drop_last()), actions_refs(s.last().actions@, s.last().actions@.len() as int), x);
    }
}

proof fn lemma_add_refs_keeps(acc: Seq<LocatorView>, refs: Seq<UrlRef>, l: LocatorView)
    requires
        acc.contains(l),
    ensures
        add_refs(acc, refs).contains(l),
    decreases refs.len(),
{
    if refs.len() > 0 {
        lemma_add_refs_keeps(acc, refs.drop_last(), l);
        let prev = add_refs(acc, refs.drop_last());
        let i = choose|i: int| 0 <= i < prev.len() && prev[i] == l;
        assert(add_ref(prev, refs.last())[i] == l);
    }
}

proof fn lemma_add_refs_collects(acc: Seq<LocatorView>, refs: Seq<UrlRef>, u: Url, l: LocatorView)
    requires
        refs.contains((u, false)),
        locator_of(u) == Some(l),
    ensures
        add_refs(acc, refs).contains(l),
    decreases refs.len(),
{
    let k = choose|k: int| 0 <= k < refs.len() && refs[k] == (u, false);
    let prev = add_refs(acc, refs.drop_last());
    if k == refs.len() - 1 {
        if prev.contains(l) {
            let i = choose|i: int| 0 <= i < prev.len() && prev[i] == l;
            assert(add_ref(prev, refs.last())[i] == l);
        } else {
            assert(add_ref(prev, refs.last()) == prev.push(l));
            assert(prev.push(l)[prev.len() as int] == l);
        }
    } else {
        assert(refs.drop_last()[k] == (u, false));
        lemma_add_refs_collects(acc, refs.drop_last(), u, l);
        let i = choose|i: int| 0 <= i < prev.len() && prev[i] == l;
        assert(add_ref(prev, refs.last())[i] == l);
    }
}

/// Law: every media URL carried by the graphics fill of an element of a
/// presentation slide's base slide, in any cue and action, yields that
/// URL's locator among the presentation's dependencies (which
/// `presentation_media_dependencies` returns).
pub proof fn law_fill_media_is_a_dependency(p: Presentation, ci: int, ai: int, ei: int, u: Url, l: LocatorView)
    requires
        0 <= ci < p.cues@.len(),
        0 <= ai < p.cues@[ci].actions@.len(),
        action_fill_url(p.cues@[ci].actions@[ai], ei, u),
        locator_of(u) == Some(l),
    ensures
        presentation_dependencies(p).contains(l),
{
    let a = p.cues@[ci].actions@[ai];
    let s = a.data->0->Slide_slide->0->Presentation_0;
    let b = s.base_slide->0;
    let e = b.elements@[ei];
    let g = e.element->0;
    let f = g.fill->0;
    let m = f.media->0;
    let x = (u, false);
    lemma_media_ref(m, u);
    assert(fill_refs(g.fill) == media_refs(m));
    lemma_in_left(fill_refs(g.fill), text_refs(g.text), x);
    lemma_in_left(graphics_refs(e.element), data_links_refs(e.data_links@), x);
    lemma_elements_ref(b.elements@, ei, x);
    lemma_in_right(url_ref(s.chord_chart, false), base_refs(s.base_slide), x);
    lemma_in_left(url_ref(s.chord_chart, false) + base_refs(s.base_slide), attributes_opt_refs(s.notes_attributes), x);
    assert(action_refs(a) == presentation_slide_refs(s));
    lemma_actions_ref(p.cues@[ci].actions@, p.cues@[ci].actions@.len() as int, ai, x);
    lemma_cues_ref(p.cues@, ci, x);
    lemma_in_right(url_ref(p.chord_chart, false), cues_refs(p.cues@), x);
    lemma_in_left(url_ref(p.chord_chart, false) + cues_refs(p.cues@), timeline_refs(p.timeline), x);
    lemma_add_refs_collects(Seq::empty(), presentation_refs(p), u, l);
}

} // verus!

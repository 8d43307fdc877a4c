//! Semantic comparison of two playlist documents.
//!
//! Only three normalizations are permitted before two documents are compared
//! field by field:
//!
//! - valid, document-unique playlist-container and playlist-item identities
//!   are volatile: each is replaced by the position of its first occurrence;
//! - UUID letter case is not semantic;
//! - machine-specific absolute prefixes before `Libraries/` are ignored.
//!
//! Names, hierarchy, tags, item fields and item order are not volatile.
use vstd::prelude::*;
use crate::document::{
    ApplicationInfo, Playlist, PlaylistChildren, PlaylistDocument, PlaylistItem, PlaylistItemType,
    RelativeFilePath, Url, UrlStorage, Version,
};
use crate::package::{normalize_absolute_path_value, normalized_absolute_path};
use crate::package_compare::{issue_views, PlaylistPackageIssue};
use crate::text::{
    ascii_lower, chars_eq, chars_of, debug_quoted, decimal, opt_view, push_all, push_decimal,
    push_str, str_debug, string_of,
};

verus! {

// ---------------------------------------------------------------------------
// Identity sites
// ---------------------------------------------------------------------------

/// One identity of a document: its stored value and its field path.
pub type Site = (Option<Seq<char>>, Seq<char>);

/// `path` extended by an indexed field.
pub open spec fn index_path(path: Seq<char>, field: Seq<char>, i: int) -> Seq<char> {
    path + field + seq!['['] + decimal(i as nat) + seq![']']
}

/// The identities of a node in traversal order: its own, those of its
/// legacy children, then those of its nested playlists or items.
pub open spec fn node_sites(p: Playlist, path: Seq<char>) -> Seq<Site>
    decreases p, 2int,
{
    seq![(opt_view(p.uuid), path + ".uuid"@)] + legacy_sites(p.children@, path, p.children@.len() as int)
        + children_sites(p, path)
}

/// The identities below a node's nested playlists or items.
pub open spec fn children_sites(p: Playlist, path: Seq<char>) -> Seq<Site>
    decreases p, 1int,
{
    match p.children_type {
        Some(PlaylistChildren::Playlists(ps)) => nested_sites(ps@, path, ps@.len() as int),
        Some(PlaylistChildren::Items(items)) => item_sites(items@, path, items@.len() as int),
        None => Seq::empty(),
    }
}

/// The identities of the first `n` legacy children.
pub open spec fn legacy_sites(ps: Seq<Playlist>, path: Seq<char>, n: int) -> Seq<Site>
    decreases ps, n,
{
    if n <= 0 || n > ps.len() {
        Seq::empty()
    } else {
        legacy_sites(ps, path, n - 1) + node_sites(ps[n - 1], index_path(path, ".children"@, n - 1))
    }
}

/// The identities of the first `n` nested playlists.
pub open spec fn nested_sites(ps: Seq<Playlist>, path: Seq<char>, n: int) -> Seq<Site>
    decreases ps, n,
{
    if n <= 0 || n > ps.len() {
        Seq::empty()
    } else {
        nested_sites(ps, path, n - 1) + node_sites(
            ps[n - 1],
            index_path(path, ".children_type.playlists"@, n - 1),
        )
    }
}

/// The identities of the first `n` items.
pub open spec fn item_sites(items: Seq<PlaylistItem>, path: Seq<char>, n: int) -> Seq<Site>
    decreases n,
{
    if n <= 0 || n > items.len() {
        Seq::empty()
    } else {
        item_sites(items, path, n - 1) + seq![
            (opt_view(items[n - 1].uuid), index_path(path, ".children_type.items"@, n - 1) + ".uuid"@),
        ]
    }
}

/// The identities of an optional top-level node.
pub open spec fn top_sites(p: Option<Playlist>, path: Seq<char>) -> Seq<Site> {
    match p {
        Some(p) => node_sites(p, path),
        None => Seq::empty(),
    }
}

/// The identities of a document: root, live-video, then downloads playlist.
pub open spec fn document_sites(d: PlaylistDocument) -> Seq<Site> {
    top_sites(d.root_node, "root_node"@) + top_sites(d.live_video_playlist, "live_video_playlist"@)
        + top_sites(d.downloads_playlist, "downloads_playlist"@)
}

// ---------------------------------------------------------------------------
// Identity normalization
// ---------------------------------------------------------------------------

/// What uuid `Uuid::parse_str` makes of a text: the parsed identity in its
/// canonical hyphenated form, or the parse error's message.
pub uninterp spec fn uuid_parse_text(s: Seq<char>) -> Result<Seq<char>, Seq<char>>;

/// uuid `Uuid::parse_str`, its result rendered with `to_string`: the
/// canonical lowercase hyphenated text of a parsed identity, or the
/// message of the parse error. Both are named, not stated.
#[verifier::external_body]
fn parse_uuid_text(s: &str) -> (r: Result<String, String>)
    ensures
        match r {
            Ok(c) => uuid_parse_text(s@) == Ok::<Seq<char>, Seq<char>>(c@),
            Err(m) => uuid_parse_text(s@) == Err::<Seq<char>, Seq<char>>(m@),
        },
{
    match uuid::Uuid::parse_str(s) {
        Ok(parsed) => Ok(parsed.to_string()),
        Err(error) => Err(error.to_string()),
    }
}

/// ASCII lowercase of a text.
pub open spec fn ascii_lowercase(s: Seq<char>) -> Seq<char> {
    s.map_values(|c: char| ascii_lower(c))
}

/// The key an identity is grouped by: its canonical form when it parses,
/// else a marked lowercase form of the raw text.
pub open spec fn identity_key(u: Seq<char>) -> Seq<char> {
    match uuid_parse_text(u) {
        Ok(c) => c,
        Err(_) => "<invalid:"@ + ascii_lowercase(u) + ">"@,
    }
}

/// Normalization state: the first path of each key, the normalized index of
/// each identity so far (`None` when missing), and the issues so far.
pub type IdentityState = (Seq<(Seq<char>, Seq<char>)>, Seq<Option<int>>, Seq<(Seq<char>, Option<usize>, Seq<char>)>);

/// The first index of `key` among the recorded keys.
pub open spec fn key_index(keys: Seq<(Seq<char>, Seq<char>)>, key: Seq<char>) -> Option<int> {
    if exists|i: int| 0 <= i < keys.len() && (#[trigger] keys[i]).0 == key {
        Some(choose|i: int| 0 <= i < keys.len() && (#[trigger] keys[i]).0 == key)
    } else {
        None
    }
}

/// The kind of an identity issue.
pub open spec fn identity_kind(side: Seq<char>, suffix: Seq<char>) -> Seq<char> {
    side + "_playlist_identity_uuid_"@ + suffix
}

/// The state after one identity.
pub open spec fn add_site(side: Seq<char>, st: IdentityState, site: Site) -> IdentityState {
    let path = site.1;
    match site.0 {
        None => (
            st.0,
            st.1.push(None),
            st.2.push(
                (identity_kind(side, "missing"@), None, side + " playlist identity at "@ + path + " is missing"@),
            ),
        ),
        Some(u) => {
            let issues = match uuid_parse_text(u) {
                Ok(_) => st.2,
                Err(m) => st.2.push(
                    (
                        identity_kind(side, "invalid"@),
                        None,
                        side + " playlist identity at "@ + path + " is not a UUID ("@ + debug_quoted(u) + "): "@
                            + m,
                    ),
                ),
            };
            let key = identity_key(u);
            match key_index(st.0, key) {
                Some(i) => (
                    st.0,
                    st.1.push(Some(i)),
                    issues.push(
                        (
                            identity_kind(side, "duplicate"@),
                            None,
                            side + " playlist identity "@ + debug_quoted(u) + " at "@ + path + " duplicates "@
                                + st.0[i].1,
                        ),
                    ),
                ),
                None => (st.0.push((key, path)), st.1.push(Some(st.0.len() as int)), issues),
            }
        },
    }
}

/// The state after each of `sites` in turn.
pub open spec fn add_sites(side: Seq<char>, st: IdentityState, sites: Seq<Site>) -> IdentityState
    decreases sites.len(),
{
    if sites.len() == 0 {
        st
    } else {
        add_site(side, add_sites(side, st, sites.drop_last()), sites.last())
    }
}

/// The normalization of a document's identities from the empty state.
pub open spec fn normalize_identities(side: Seq<char>, d: PlaylistDocument) -> IdentityState {
    add_sites(side, (Seq::empty(), Seq::empty(), Seq::empty()), document_sites(d))
}

// ---------------------------------------------------------------------------
// Shapes: everything but identities, normalized
// ---------------------------------------------------------------------------

/// Two optional texts equal after ASCII lowercasing.
pub open spec fn same_lowered(a: Option<Seq<char>>, b: Option<Seq<char>>) -> bool {
    match (a, b) {
        (Some(x), Some(y)) => ascii_lowercase(x) == ascii_lowercase(y),
        (None, None) => true,
        _ => false,
    }
}

/// Two runs of tag identities equal after ASCII lowercasing.
pub open spec fn same_tags(a: Seq<String>, b: Seq<String>) -> bool {
    a.len() == b.len() && forall|k: int| 0 <= k < a.len() ==> ascii_lowercase(#[trigger] a[k]@) == ascii_lowercase(b[k]@)
}

/// Two document URLs equal once absolute strings are normalized.
pub open spec fn same_url(a: Url, b: Url) -> bool {
    &&& a.platform == b.platform
    &&& match (a.storage, b.storage) {
        (Some(UrlStorage::AbsoluteString(x)), Some(UrlStorage::AbsoluteString(y))) => normalized_absolute_path(x@)
            == normalized_absolute_path(y@),
        (Some(UrlStorage::RelativePath(x)), Some(UrlStorage::RelativePath(y))) => x@ == y@,
        (None, None) => true,
        _ => false,
    }
    &&& match (a.relative_file_path, b.relative_file_path) {
        (Some(RelativeFilePath::Local(x)), Some(RelativeFilePath::Local(y))) => x.root == y.root && x.path@ == y.path@,
        (Some(RelativeFilePath::External(x)), Some(RelativeFilePath::External(y))) => x.path@ == y.path@,
        (None, None) => true,
        _ => false,
    }
}

/// Two optional document URLs equal once normalized.
pub open spec fn same_url_opt(a: Option<Url>, b: Option<Url>) -> bool {
    match (a, b) {
        (Some(x), Some(y)) => same_url(x, y),
        (None, None) => true,
        _ => false,
    }
}

/// Two item payloads equal once normalized.
pub open spec fn same_item_type(a: Option<PlaylistItemType>, b: Option<PlaylistItemType>) -> bool {
    match (a, b) {
        (Some(PlaylistItemType::Presentation(x)), Some(PlaylistItemType::Presentation(y))) => {
            &&& same_url_opt(x.document_path, y.document_path)
            &&& same_lowered(opt_view(x.arrangement), opt_view(y.arrangement))
            &&& x.content_destination == y.content_destination
            &&& x.user_music_key == y.user_music_key
            &&& x.arrangement_name@ == y.arrangement_name@
        },
        (Some(PlaylistItemType::Other(x)), Some(PlaylistItemType::Other(y))) => x == y,
        (None, None) => true,
        _ => false,
    }
}

/// Two items equal but for their identities, once normalized.
pub open spec fn same_item_shape(a: PlaylistItem, b: PlaylistItem) -> bool {
    &&& a.name@ == b.name@
    &&& same_tags(a.tags@, b.tags@)
    &&& a.is_hidden == b.is_hidden
    &&& same_item_type(a.item_type, b.item_type)
}

/// Two nodes equal but for their identities, once normalized.
pub open spec fn same_node_shape(a: Playlist, b: Playlist) -> bool
    decreases a, 2int,
{
    &&& a.name@ == b.name@
    &&& a.children@.len() == b.children@.len()
    &&& same_nodes(a.children@, b.children@, a.children@.len() as int)
    &&& same_children_shape(a, b)
}

/// Two nodes' nested playlists or items equal but for identities.
pub open spec fn same_children_shape(a: Playlist, b: Playlist) -> bool
    decreases a, 1int,
{
    match (a.children_type, b.children_type) {
        (Some(PlaylistChildren::Playlists(x)), Some(PlaylistChildren::Playlists(y))) => x@.len() == y@.len()
            && same_nodes(x@, y@, x@.len() as int),
        (Some(PlaylistChildren::Items(x)), Some(PlaylistChildren::Items(y))) => x@.len() == y@.len() && forall|k: int|
            0 <= k < x@.len() ==> same_item_shape(#[trigger] x@[k], y@[k]),
        (None, None) => true,
        _ => false,
    }
}

/// The first `n` nodes of two runs equal but for identities.
pub open spec fn same_nodes(xs: Seq<Playlist>, ys: Seq<Playlist>, n: int) -> bool
    decreases xs, n,
{
    if n <= 0 || n > xs.len() {
        true
    } else {
        same_nodes(xs, ys, n - 1) && same_node_shape(xs[n - 1], ys[n - 1])
    }
}

/// Two optional top-level nodes equal after normalization: equal shapes
/// and equal normalized identities.
pub open spec fn same_top(
    a: Option<Playlist>,
    b: Option<Playlist>,
    a_ids: Seq<Option<int>>,
    b_ids: Seq<Option<int>>,
) -> bool {
    match (a, b) {
        (Some(x), Some(y)) => same_node_shape(x, y) && a_ids == b_ids,
        (None, None) => true,
        _ => false,
    }
}

/// The normalized identities of the sites `from..to`.
pub open spec fn ids_between(st: IdentityState, from: int, to: int) -> Seq<Option<int>> {
    st.1.subrange(from, to)
}

/// The issues of comparing two documents: each side's identity issues,
/// then one issue per differing field.
pub open spec fn document_issues(e: PlaylistDocument, a: PlaylistDocument) -> Seq<(Seq<char>, Option<usize>, Seq<char>)> {
    let es = normalize_identities("expected"@, e);
    let as_ = normalize_identities("actual"@, a);
    let er = top_sites(e.root_node, "root_node"@).len() as int;
    let ar = top_sites(a.root_node, "root_node"@).len() as int;
    let el = er + top_sites(e.live_video_playlist, "live_video_playlist"@).len();
    let al = ar + top_sites(a.live_video_playlist, "live_video_playlist"@).len();
    let ed = el + top_sites(e.downloads_playlist, "downloads_playlist"@).len();
    let ad = al + top_sites(a.downloads_playlist, "downloads_playlist"@).len();
    es.2 + as_.2 + field_issue(
        "playlist_application_info_mismatch"@,
        "playlist application/platform metadata differs"@,
        same_application_info(e.application_info, a.application_info),
    ) + field_issue(
        "playlist_document_type_mismatch"@,
        "playlist document types differ"@,
        e.document_type == a.document_type,
    ) + field_issue(
        "playlist_root_mismatch"@,
        "playlist root hierarchy or item metadata differs"@,
        same_top(e.root_node, a.root_node, ids_between(es, 0, er), ids_between(as_, 0, ar)),
    ) + field_issue(
        "playlist_live_video_mismatch"@,
        "live-video playlist metadata differs"@,
        same_top(e.live_video_playlist, a.live_video_playlist, ids_between(es, er, el), ids_between(as_, ar, al)),
    ) + field_issue(
        "playlist_downloads_mismatch"@,
        "downloads playlist metadata differs"@,
        same_top(e.downloads_playlist, a.downloads_playlist, ids_between(es, el, ed), ids_between(as_, al, ad)),
    )
}

/// Two optional producer versions hold the same values.
pub open spec fn same_version(a: Option<Version>, b: Option<Version>) -> bool {
    match (a, b) {
        (Some(x), Some(y)) => x.major_version == y.major_version && x.minor_version == y.minor_version
            && x.patch_version == y.patch_version && x.build@ == y.build@,
        (None, None) => true,
        _ => false,
    }
}

/// Two optional producer records hold the same values.
pub open spec fn same_application_info(a: Option<ApplicationInfo>, b: Option<ApplicationInfo>) -> bool {
    match (a, b) {
        (Some(x), Some(y)) => x.platform == y.platform && same_version(x.platform_version, y.platform_version)
            && x.application == y.application && same_version(x.application_version, y.application_version),
        (None, None) => true,
        _ => false,
    }
}

/// One issue when a field differs.
pub open spec fn field_issue(kind: Seq<char>, message: Seq<char>, same: bool) -> Seq<(Seq<char>, Option<usize>, Seq<char>)> {
    if same {
        Seq::empty()
    } else {
        seq![(kind, None, message)]
    }
}


// ---------------------------------------------------------------------------
// Executable comparison
// ---------------------------------------------------------------------------

/// The plain contents of collected sites.
pub open spec fn site_views(v: Seq<(Option<String>, Vec<char>)>) -> Seq<Site> {
    v.map_values(|s: (Option<String>, Vec<char>)| (opt_view(s.0), s.1@))
}

fn make_index_path(path: &Vec<char>, field: &str, i: usize) -> (r: Vec<char>)
    ensures
        r@ == index_path(path@, field@, i as int),
{
    let mut r: Vec<char> = Vec::new();
    push_all(&mut r, path.as_slice());
    push_str(&mut r, field);
    r.push('[');
    push_decimal(&mut r, i as u64);
    r.push(']');
    proof {
        assert(r@ =~= index_path(path@, field@, i as int));
    }
    r
}

fn with_suffix(path: &Vec<char>, suffix: &str) -> (r: Vec<char>)
    ensures
        r@ == path@ + suffix@,
{
    let mut r: Vec<char> = Vec::new();
    push_all(&mut r, path.as_slice());
    push_str(&mut r, suffix);
    proof {
        assert(r@ =~= path@ + suffix@);
    }
    r
}

fn push_site(out: &mut Vec<(Option<String>, Vec<char>)>, uuid: &Option<String>, path: Vec<char>)
    ensures
        site_views(final(out)@) == site_views(old(out)@).push((opt_view(*uuid), path@)),
{
    let u = match uuid {
        Some(s) => Some(s.clone()),
        None => None,
    };
    let ghost before = out@;
    out.push((u, path));
    proof {
        assert(site_views(out@) =~= site_views(before).push((opt_view(*uuid), out@[out@.len() - 1].1@)));
    }
}

fn collect_sites(p: &Playlist, path: &Vec<char>, out: &mut Vec<(Option<String>, Vec<char>)>)
    ensures
        site_views(final(out)@) == site_views(old(out)@) + node_sites(*p, path@),
    decreases p,
{
    let ghost start = site_views(out@);
    push_site(out, &p.uuid, with_suffix(path, ".uuid"));
    let ghost first = site_views(out@);
    let mut i: usize = 0;
    proof {
        assert(first + legacy_sites(p.children@, path@, 0) =~= first);
    }
    while i < p.children.len()
        invariant
            i <= p.children.len(),
            site_views(out@) == first + legacy_sites(p.children@, path@, i as int),
        decreases p.children.len() - i,
    {
        proof {
            assert(decreases_to!(*p => p.children@[i as int]));
        }
        let child_path = make_index_path(path, ".children", i);
        collect_sites(&p.children[i], &child_path, out);
        proof {
            assert(first + legacy_sites(p.children@, path@, i + 1) =~= first + legacy_sites(
                p.children@,
                path@,
                i as int,
            ) + node_sites(p.children@[i as int], index_path(path@, ".children"@, i as int)));
        }
        i += 1;
    }
    let ghost mid = site_views(out@);
    match &p.children_type {
        Some(PlaylistChildren::Playlists(ps)) => {
            let mut j: usize = 0;
            proof {
                assert(mid + nested_sites(ps@, path@, 0) =~= mid);
            }
            while j < ps.len()
                invariant
                    j <= ps.len(),
                    p.children_type == Some(PlaylistChildren::Playlists(*ps)),
                    site_views(out@) == mid + nested_sites(ps@, path@, j as int),
                decreases ps.len() - j,
            {
                proof {
                    let ct = p.children_type;
                    assert(decreases_to!(*p => p.children_type));
                    assert(ct->0 == PlaylistChildren::Playlists(*ps));
                    assert(decreases_to!(ct => ct->0));
                    assert(decreases_to!(ct->0 => ct->0->Playlists_0));
                    assert(decreases_to!(*ps => ps@));
                    assert(decreases_to!(ps@ => ps@[j as int]));
                    assert(decreases_to!(*p => ps@[j as int]));
                }
                let child_path = make_index_path(path, ".children_type.playlists", j);
                collect_sites(&ps[j], &child_path, out);
                proof {
                    assert(mid + nested_sites(ps@, path@, j + 1) =~= mid + nested_sites(ps@, path@, j as int)
                        + node_sites(ps@[j as int], index_path(path@, ".children_type.playlists"@, j as int)));
                }
                j += 1;
            }
        },
        Some(PlaylistChildren::Items(items)) => {
            let mut k: usize = 0;
            proof {
                assert(mid + item_sites(items@, path@, 0) =~= mid);
            }
            while k < items.len()
                invariant
                    k <= items.len(),
                    site_views(out@) == mid + item_sites(items@, path@, k as int),
                decreases items.len() - k,
            {
                let item_path = make_index_path(path, ".children_type.items", k);
                push_site(out, &items[k].uuid, with_suffix(&item_path, ".uuid"));
                proof {
                    assert(mid + item_sites(items@, path@, k + 1) =~= mid + item_sites(items@, path@, k as int)
                        + seq![(opt_view(items@[k as int].uuid), index_path(path@, ".children_type.items"@, k as int) + ".uuid"@)]);
                }
                k += 1;
            }
        },
        None => {},
    }
    proof {
        assert(site_views(out@) =~= start + node_sites(*p, path@));
    }
}

fn collect_top_sites(p: &Option<Playlist>, path: &str, out: &mut Vec<(Option<String>, Vec<char>)>)
    ensures
        site_views(final(out)@) == site_views(old(out)@) + top_sites(*p, path@),
{
    match p {
        Some(p) => {
            let pc = chars_of(path);
            collect_sites(p, &pc, out);
        },
        None => {
            proof {
                assert(site_views(out@) =~= site_views(out@) + Seq::<Site>::empty());
            }
        },
    }
}

/// The plain contents of recorded keys.
pub open spec fn key_views(v: Seq<(Vec<char>, Vec<char>)>) -> Seq<(Seq<char>, Seq<char>)> {
    v.map_values(|k: (Vec<char>, Vec<char>)| (k.0@, k.1@))
}

/// The normalized indices as integers.
pub open spec fn rep_views(v: Seq<Option<usize>>) -> Seq<Option<int>> {
    v.map_values(|o: Option<usize>| match o {
        Some(i) => Some(i as int),
        None => None,
    })
}

/// Whether no key is recorded twice.
pub open spec fn unique_keys(keys: Seq<(Seq<char>, Seq<char>)>) -> bool {
    forall|i: int, j: int| 0 <= i < j < keys.len() ==> (#[trigger] keys[i]).0 != (#[trigger] keys[j]).0
}

proof fn lemma_add_sites_keys_unique(side: Seq<char>, st: IdentityState, sites: Seq<Site>)
    requires
        unique_keys(st.0),
    ensures
        unique_keys(add_sites(side, st, sites).0),
    decreases sites.len(),
{
    if sites.len() > 0 {
        lemma_add_sites_keys_unique(side, st, sites.drop_last());
    }
}

fn push_message_issue(issues: &mut Vec<PlaylistPackageIssue>, side: &str, suffix: &str, message: Vec<char>)
    ensures
        issue_views(final(issues)@) == issue_views(old(issues)@).push(
            (identity_kind(side@, suffix@), None, message@),
        ),
{
    let mut kind: Vec<char> = Vec::new();
    push_str(&mut kind, side);
    push_str(&mut kind, "_playlist_identity_uuid_");
    push_str(&mut kind, suffix);
    let ghost before = issues@;
    issues.push(PlaylistPackageIssue { kind: string_of(kind.as_slice()), index: None, message: string_of(message.as_slice()) });
    proof {
        assert(kind@ =~= identity_kind(side@, suffix@));
        assert(issue_views(issues@) =~= issue_views(before).push((identity_kind(side@, suffix@), None, message@)));
    }
}

fn ascii_lowered(s: &[char]) -> (r: Vec<char>)
    ensures
        r@ == ascii_lowercase(s@),
{
    let mut r: Vec<char> = Vec::new();
    let mut i: usize = 0;
    while i < s.len()
        invariant
            i <= s.len(),
            r@ == ascii_lowercase(s@.take(i as int)),
        decreases s.len() - i,
    {
        let c = s[i];
        let l = if 'A' <= c && c <= 'Z' { ((c as u32) + 32) as u8 as char } else { c };
        proof {
            assert(l == ascii_lower(c)) by {
                if 'A' <= c && c <= 'Z' {
                    assert(((c as u32) + 32) < 128);
                }
            }
            assert(ascii_lowercase(s@.take(i + 1)) =~= ascii_lowercase(s@.take(i as int)).push(ascii_lower(c)));
        }
        r.push(l);
        i += 1;
    }
    proof {
        assert(s@.take(s.len() as int) =~= s@);
    }
    r
}

fn normalize_sites(side: &str, sites: &Vec<(Option<String>, Vec<char>)>) -> (r: (Vec<Option<usize>>, Vec<PlaylistPackageIssue>))
    ensures
        ({
            let st = add_sites(side@, (Seq::empty(), Seq::empty(), Seq::empty()), site_views(sites@));
            rep_views(r.0@) == st.1 && issue_views(r.1@) == st.2
        }),
{
    let ghost sv = site_views(sites@);
    let ghost empty: IdentityState = (Seq::empty(), Seq::empty(), Seq::empty());
    let mut keys: Vec<(Vec<char>, Vec<char>)> = Vec::new();
    let mut reps: Vec<Option<usize>> = Vec::new();
    let mut issues: Vec<PlaylistPackageIssue> = Vec::new();
    let mut i: usize = 0;
    proof {
        assert(sv.take(0) =~= Seq::<Site>::empty());
        assert(key_views(keys@) =~= Seq::<(Seq<char>, Seq<char>)>::empty());
        assert(rep_views(reps@) =~= Seq::<Option<int>>::empty());
        assert(issue_views(issues@) =~= Seq::<(Seq<char>, Option<usize>, Seq<char>)>::empty());
    }
    while i < sites.len()
        invariant
            i <= sites.len(),
            sv == site_views(sites@),
            empty == (Seq::<(Seq<char>, Seq<char>)>::empty(), Seq::<Option<int>>::empty(), Seq::<(Seq<char>, Option<usize>, Seq<char>)>::empty()),
            (key_views(keys@), rep_views(reps@), issue_views(issues@)) == add_sites(side@, empty, sv.take(i as int)),
            unique_keys(key_views(keys@)),
            keys@.len() <= i,
        decreases sites.len() - i,
    {
        let ghost st = add_sites(side@, empty, sv.take(i as int));
        proof {
            assert(sv.take(i + 1).drop_last() =~= sv.take(i as int));
            assert(sv.take(i + 1).last() == sv[i as int]);
            assert(sv[i as int] == (opt_view(sites@[i as int].0), sites@[i as int].1@));
        }
        let path = &sites[i].1;
        match &sites[i].0 {
            None => {
                let mut m: Vec<char> = Vec::new();
                push_str(&mut m, side);
                push_str(&mut m, " playlist identity at ");
                push_all(&mut m, path.as_slice());
                push_str(&mut m, " is missing");
                push_message_issue(&mut issues, side, "missing", m);
                let ghost before = reps@;
                reps.push(None);
                proof {
                    assert(rep_views(reps@) =~= rep_views(before).push(None));
                }
            },
            Some(u) => {
                let uc = chars_of(u.as_str());
                let key: Vec<char> = match parse_uuid_text(u.as_str()) {
                    Ok(c) => chars_of(c.as_str()),
                    Err(err) => {
                        let mut m: Vec<char> = Vec::new();
                        push_str(&mut m, side);
                        push_str(&mut m, " playlist identity at ");
                        push_all(&mut m, path.as_slice());
                        push_str(&mut m, " is not a UUID (");
                        push_str(&mut m, str_debug(u.as_str()).as_str());
                        push_str(&mut m, "): ");
                        push_str(&mut m, err.as_str());
                        push_message_issue(&mut issues, side, "invalid", m);
                        let mut k: Vec<char> = Vec::new();
                        push_str(&mut k, "<invalid:");
                        push_all(&mut k, ascii_lowered(uc.as_slice()).as_slice());
                        push_str(&mut k, ">");
                        proof {
                            assert(k@ =~= identity_key(u@));
                        }
                        k
                    },
                };
                let ghost kv = key_views(keys@);
                let mut found: Option<usize> = None;
                let mut j: usize = 0;
                while j < keys.len() && found.is_none()
                    invariant
                        j <= keys.len(),
                        kv == key_views(keys@),
                        found is None ==> forall|q: int| 0 <= q < j ==> kv[q].0 != key@,
                        found matches Some(f) ==> f < keys.len() && kv[f as int].0 == key@,
                    decreases keys.len() - j + if found is None { 1int } else { 0int },
                {
                    if chars_eq(keys[j].0.as_slice(), key.as_slice()) {
                        found = Some(j);
                    }
                    j += 1;
                }
                match found {
                    Some(f) => {
                        proof {
                            assert(key_index(kv, key@) == Some(f as int));
                        }
                        let mut m: Vec<char> = Vec::new();
                        push_str(&mut m, side);
                        push_str(&mut m, " playlist identity ");
                        push_str(&mut m, str_debug(u.as_str()).as_str());
                        push_str(&mut m, " at ");
                        push_all(&mut m, path.as_slice());
                        push_str(&mut m, " duplicates ");
                        push_all(&mut m, keys[f].1.as_slice());
                        push_message_issue(&mut issues, side, "duplicate", m);
                        let ghost before = reps@;
                        reps.push(Some(f));
                        proof {
                            assert(rep_views(reps@) =~= rep_views(before).push(Some(f as int)));
                        }
                    },
                    None => {
                        proof {
                            assert(key_index(kv, key@) is None);
                        }
                        let n = keys.len();
                        let ghost kbefore = keys@;
                        keys.push((key, path.clone()));
                        let ghost before = reps@;
                        reps.push(Some(n));
                        proof {
                            assert(key_views(keys@) =~= key_views(kbefore).push((identity_key(u@), path@)));
                            assert(rep_views(reps@) =~= rep_views(before).push(Some(n as int)));
                        }
                    },
                }
            },
        }
        proof {
            assert((key_views(keys@), rep_views(reps@), issue_views(issues@)) == add_site(side@, st, sv[i as int]));
        }
        i += 1;
    }
    proof {
        assert(sv.take(sites.len() as int) =~= sv);
    }
    (reps, issues)
}

fn same_opt_text(a: &Option<String>, b: &Option<String>) -> (r: bool)
    ensures
        r == (opt_view(*a) == opt_view(*b)),
{
    match (a, b) {
        (Some(x), Some(y)) => chars_eq(chars_of(x.as_str()).as_slice(), chars_of(y.as_str()).as_slice()),
        (None, None) => true,
        _ => false,
    }
}

fn same_text(a: &String, b: &String) -> (r: bool)
    ensures
        r == (a@ == b@),
{
    chars_eq(chars_of(a.as_str()).as_slice(), chars_of(b.as_str()).as_slice())
}

fn same_lowered_exec(a: &Option<String>, b: &Option<String>) -> (r: bool)
    ensures
        r == same_lowered(opt_view(*a), opt_view(*b)),
{
    match (a, b) {
        (Some(x), Some(y)) => {
            let xl = ascii_lowered(chars_of(x.as_str()).as_slice());
            let yl = ascii_lowered(chars_of(y.as_str()).as_slice());
            chars_eq(xl.as_slice(), yl.as_slice())
        },
        (None, None) => true,
        _ => false,
    }
}

fn same_url_exec(a: &Url, b: &Url) -> (r: bool)
    ensures
        r == same_url(*a, *b),
{
    if a.platform != b.platform {
        return false;
    }
    let storage_same = match (&a.storage, &b.storage) {
        (Some(UrlStorage::AbsoluteString(x)), Some(UrlStorage::AbsoluteString(y))) => {
            let nx = normalize_absolute_path_value(x.as_str());
            let ny = normalize_absolute_path_value(y.as_str());
            same_text(&nx, &ny)
        },
        (Some(UrlStorage::RelativePath(x)), Some(UrlStorage::RelativePath(y))) => same_text(x, y),
        (None, None) => true,
        _ => false,
    };
    if !storage_same {
        return false;
    }
    match (&a.relative_file_path, &b.relative_file_path) {
        (Some(RelativeFilePath::Local(x)), Some(RelativeFilePath::Local(y))) => x.root == y.root && same_text(&x.path, &y.path),
        (Some(RelativeFilePath::External(x)), Some(RelativeFilePath::External(y))) => same_text(&x.path, &y.path),
        (None, None) => true,
        _ => false,
    }
}

fn same_item_exec(a: &PlaylistItem, b: &PlaylistItem) -> (r: bool)
    ensures
        r == same_item_shape(*a, *b),
{
    if !same_text(&a.name, &b.name) || a.is_hidden != b.is_hidden {
        return false;
    }
    if a.tags.len() != b.tags.len() {
        return false;
    }
    let mut k: usize = 0;
    while k < a.tags.len()
        invariant
            k <= a.tags.len(),
            a.tags.len() == b.tags.len(),
            forall|q: int| 0 <= q < k ==> ascii_lowercase(#[trigger] a.tags@[q]@) == ascii_lowercase(b.tags@[q]@),
        decreases a.tags.len() - k,
    {
        let x = ascii_lowered(chars_of(a.tags[k].as_str()).as_slice());
        let y = ascii_lowered(chars_of(b.tags[k].as_str()).as_slice());
        if !chars_eq(x.as_slice(), y.as_slice()) {
            return false;
        }
        k += 1;
    }
    match (&a.item_type, &b.item_type) {
        (Some(PlaylistItemType::Presentation(x)), Some(PlaylistItemType::Presentation(y))) => {
            let url_same = match (&x.document_path, &y.document_path) {
                (Some(u), Some(v)) => same_url_exec(u, v),
                (None, None) => true,
                _ => false,
            };
            let key_same = match (x.user_music_key, y.user_music_key) {
                (Some(p), Some(q)) => p.music_key == q.music_key && p.music_scale == q.music_scale,
                (None, None) => true,
                _ => false,
            };
            url_same && same_lowered_exec(&x.arrangement, &y.arrangement) && x.content_destination
                == y.content_destination && key_same && same_text(&x.arrangement_name, &y.arrangement_name)
        },
        (Some(PlaylistItemType::Other(x)), Some(PlaylistItemType::Other(y))) => *x == *y,
        (None, None) => true,
        _ => false,
    }
}

fn same_node_exec(a: &Playlist, b: &Playlist) -> (r: bool)
    ensures
        r == same_node_shape(*a, *b),
    decreases a,
{
    if !same_text(&a.name, &b.name) || a.children.len() != b.children.len() {
        return false;
    }
    let mut i: usize = 0;
    while i < a.children.len()
        invariant
            i <= a.children.len(),
            a.children.len() == b.children.len(),
            same_nodes(a.children@, b.children@, i as int),
        decreases a.children.len() - i,
    {
        proof {
            assert(decreases_to!(*a => a.children@[i as int]));
        }
        if !same_node_exec(&a.children[i], &b.children[i]) {
            proof {
                if same_nodes(a.children@, b.children@, a.children@.len() as int) {
                    lemma_same_nodes_prefix(a.children@, b.children@, i + 1, a.children@.len() as int);
                }
            }
            return false;
        }
        i += 1;
    }
    match (&a.children_type, &b.children_type) {
        (Some(PlaylistChildren::Playlists(x)), Some(PlaylistChildren::Playlists(y))) => {
            if x.len() != y.len() {
                return false;
            }
            let mut j: usize = 0;
            while j < x.len()
                invariant
                    j <= x.len(),
                    x.len() == y.len(),
                    a.children_type == Some(PlaylistChildren::Playlists(*x)),
                    b.children_type == Some(PlaylistChildren::Playlists(*y)),
                    same_nodes(x@, y@, j as int),
                decreases x.len() - j,
            {
                proof {
                    let ct = a.children_type;
                    assert(decreases_to!(*a => a.children_type));
                    assert(ct->0 == PlaylistChildren::Playlists(*x));
                    assert(decreases_to!(ct => ct->0));
                    assert(decreases_to!(ct->0 => ct->0->Playlists_0));
                    assert(decreases_to!(*x => x@));
                    assert(decreases_to!(x@ => x@[j as int]));
                    assert(decreases_to!(*a => x@[j as int]));
                }
                if !same_node_exec(&x[j], &y[j]) {
                    proof {
                        if same_nodes(x@, y@, x@.len() as int) {
                            lemma_same_nodes_prefix(x@, y@, j + 1, x@.len() as int);
                        }
                    }
                    return false;
                }
                j += 1;
            }
            true
        },
        (Some(PlaylistChildren::Items(x)), Some(PlaylistChildren::Items(y))) => {
            if x.len() != y.len() {
                return false;
            }
            let mut k: usize = 0;
            while k < x.len()
                invariant
                    k <= x.len(),
                    x.len() == y.len(),
                    a.children_type == Some(PlaylistChildren::Items(*x)),
                    b.children_type == Some(PlaylistChildren::Items(*y)),
                    forall|q: int| 0 <= q < k ==> same_item_shape(#[trigger] x@[q], y@[q]),
                decreases x.len() - k,
            {
                if !same_item_exec(&x[k], &y[k]) {
                    proof {
                        assert(!same_item_shape(x@[k as int], y@[k as int]));
                    }
                    return false;
                }
                k += 1;
            }
            true
        },
        (None, None) => true,
        _ => false,
    }
}

fn same_reps(a: &Vec<Option<usize>>, af: usize, at: usize, b: &Vec<Option<usize>>, bf: usize, bt: usize) -> (r: bool)
    requires
        af <= at <= a.len(),
        bf <= bt <= b.len(),
    ensures
        r == (rep_views(a@).subrange(af as int, at as int) == rep_views(b@).subrange(bf as int, bt as int)),
{
    let ghost x = rep_views(a@).subrange(af as int, at as int);
    let ghost y = rep_views(b@).subrange(bf as int, bt as int);
    if at - af != bt - bf {
        proof {
            assert(x.len() != y.len());
        }
        return false;
    }
    let mut k: usize = 0;
    while k < at - af
        invariant
            af <= at <= a.len(),
            bf <= bt <= b.len(),
            at - af == bt - bf,
            k <= at - af,
            x == rep_views(a@).subrange(af as int, at as int),
            y == rep_views(b@).subrange(bf as int, bt as int),
            forall|q: int| 0 <= q < k ==> x[q] == y[q],
        decreases at - af - k,
    {
        let same = match (a[af + k], b[bf + k]) {
            (Some(p), Some(q)) => p == q,
            (None, None) => true,
            _ => false,
        };
        proof {
            assert(x[k as int] == rep_views(a@)[af + k]);
            assert(y[k as int] == rep_views(b@)[bf + k]);
        }
        if !same {
            return false;
        }
        k += 1;
    }
    proof {
        assert(x =~= y);
    }
    true
}

fn same_top_exec(
    a: &Option<Playlist>,
    b: &Option<Playlist>,
    ar: &Vec<Option<usize>>,
    af: usize,
    at: usize,
    br: &Vec<Option<usize>>,
    bf: usize,
    bt: usize,
) -> (r: bool)
    requires
        af <= at <= ar.len(),
        bf <= bt <= br.len(),
    ensures
        r == same_top(*a, *b, rep_views(ar@).subrange(af as int, at as int), rep_views(br@).subrange(bf as int, bt as int)),
{
    match (a, b) {
        (Some(x), Some(y)) => same_node_exec(x, y) && same_reps(ar, af, at, br, bf, bt),
        (None, None) => true,
        _ => false,
    }
}

fn same_version_exec(a: &Option<Version>, b: &Option<Version>) -> (r: bool)
    ensures
        r == same_version(*a, *b),
{
    match (a, b) {
        (Some(x), Some(y)) => x.major_version == y.major_version && x.minor_version == y.minor_version
            && x.patch_version == y.patch_version && same_text(&x.build, &y.build),
        (None, None) => true,
        _ => false,
    }
}

fn same_application_info_exec(a: &Option<ApplicationInfo>, b: &Option<ApplicationInfo>) -> (r: bool)
    ensures
        r == same_application_info(*a, *b),
{
    match (a, b) {
        (Some(x), Some(y)) => x.platform == y.platform && same_version_exec(&x.platform_version, &y.platform_version)
            && x.application == y.application && same_version_exec(&x.application_version, &y.application_version),
        (None, None) => true,
        _ => false,
    }
}

fn push_field_issue(issues: &mut Vec<PlaylistPackageIssue>, kind: &str, message: &str, same: bool)
    ensures
        issue_views(final(issues)@) == issue_views(old(issues)@) + field_issue(kind@, message@, same),
{
    if !same {
        let ghost before = issues@;
        issues.push(PlaylistPackageIssue { kind: kind.to_string(), index: None, message: message.to_string() });
        proof {
            assert(issue_views(issues@) =~= issue_views(before) + field_issue(kind@, message@, same));
        }
    } else {
        proof {
            assert(issue_views(issues@) =~= issue_views(issues@) + field_issue(kind@, message@, same));
        }
    }
}

fn append_issues(issues: &mut Vec<PlaylistPackageIssue>, more: Vec<PlaylistPackageIssue>)
    ensures
        issue_views(final(issues)@) == issue_views(old(issues)@) + issue_views(more@),
{
    let mut more = more;
    let ghost before = issues@;
    let ghost m = more@;
    issues.append(&mut more);
    proof {
        assert(issues@ == before + m);
        assert(issue_views(issues@) =~= issue_views(before) + issue_views(m));
    }
}

/// Compare two playlist documents after the permitted normalizations,
/// appending each side's identity issues and one issue per differing field.
#[verifier::spinoff_prover]
#[verifier::rlimit(40)]
pub fn compare_playlist_documents(
    expected: &PlaylistDocument,
    actual: &PlaylistDocument,
    issues: &mut Vec<PlaylistPackageIssue>,
)
    ensures
        issue_views(final(issues)@) == issue_views(old(issues)@) + document_issues(*expected, *actual),
{
    let mut es: Vec<(Option<String>, Vec<char>)> = Vec::new();
    proof {
        assert(site_views(es@) =~= Seq::<Site>::empty());
    }
    collect_top_sites(&expected.root_node, "root_node", &mut es);
    let er = es.len();
    collect_top_sites(&expected.live_video_playlist, "live_video_playlist", &mut es);
    let el = es.len();
    collect_top_sites(&expected.downloads_playlist, "downloads_playlist", &mut es);
    let ed = es.len();
    let mut as_: Vec<(Option<String>, Vec<char>)> = Vec::new();
    proof {
        assert(site_views(as_@) =~= Seq::<Site>::empty());
    }
    collect_top_sites(&actual.root_node, "root_node", &mut as_);
    let ar = as_.len();
    collect_top_sites(&actual.live_video_playlist, "live_video_playlist", &mut as_);
    let al = as_.len();
    collect_top_sites(&actual.downloads_playlist, "downloads_playlist", &mut as_);
    let ad = as_.len();
    proof {
        assert(site_views(es@) =~= document_sites(*expected));
        assert(site_views(as_@) =~= document_sites(*actual));
    }
    let (e_reps, e_issues) = normalize_sites("expected", &es);
    let (a_reps, a_issues) = normalize_sites("actual", &as_);
    proof {
        lemma_add_sites_len("expected"@, (Seq::empty(), Seq::empty(), Seq::empty()), site_views(es@));
        lemma_add_sites_len("actual"@, (Seq::empty(), Seq::empty(), Seq::empty()), site_views(as_@));
    }
    append_issues(issues, e_issues);
    append_issues(issues, a_issues);
    push_field_issue(
        issues,
        "playlist_application_info_mismatch",
        "playlist application/platform metadata differs",
        same_application_info_exec(&expected.application_info, &actual.application_info),
    );
    push_field_issue(
        issues,
        "playlist_document_type_mismatch",
        "playlist document types differ",
        expected.document_type == actual.document_type,
    );
    push_field_issue(
        issues,
        "playlist_root_mismatch",
        "playlist root hierarchy or item metadata differs",
        same_top_exec(&expected.root_node, &actual.root_node, &e_reps, 0, er, &a_reps, 0, ar),
    );
    push_field_issue(
        issues,
        "playlist_live_video_mismatch",
        "live-video playlist metadata differs",
        same_top_exec(&expected.live_video_playlist, &actual.live_video_playlist, &e_reps, er, el, &a_reps, ar, al),
    );
    push_field_issue(
        issues,
        "playlist_downloads_mismatch",
        "downloads playlist metadata differs",
        same_top_exec(&expected.downloads_playlist, &actual.downloads_playlist, &e_reps, el, ed, &a_reps, al, ad),
    );
}

proof fn lemma_same_nodes_prefix(xs: Seq<Playlist>, ys: Seq<Playlist>, k: int, n: int)
    requires
        0 <= k <= n <= xs.len(),
        same_nodes(xs, ys, n),
    ensures
        same_nodes(xs, ys, k),
    decreases n - k,
{
    if k < n {
        lemma_same_nodes_prefix(xs, ys, k, n - 1);
    }
}

proof fn lemma_add_sites_len(side: Seq<char>, st: IdentityState, sites: Seq<Site>)
    ensures
        add_sites(side, st, sites).1.len() == st.1.len() + sites.len(),
    decreases sites.len(),
{
    if sites.len() > 0 {
        lemma_add_sites_len(side, st, sites.drop_last());
    }
}

} // verus!

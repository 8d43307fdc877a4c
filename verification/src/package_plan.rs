//! One checked owner of playlist package membership and read-back checks.
//!
//! Building a plan is the only place where archive identities are
//! assigned: embedded presentation names, media member paths, and the
//! reserved document member `data`. Checking a package read back after
//! writing compares it against the same plan.
use vstd::prelude::*;
use crate::document::PlaylistDocument;
use crate::package::{document_summaries, presentation_items, same_summaries, same_summary, PlaylistItemSummary};
use crate::package_model::{entry_names, PlaylistPackage};
use crate::playlist::{
    basename_clash, embedded_filenames, embedded_name_at, entry_views, first_embedded_source, name_views,
    names_presentation, no_clash_before, reject_presentation_media_path, reserve_archive_path, source_conflict,
    validate_archive_path, validate_embedded_source_consistency, validate_playlist_matches_entries,
    validated_archive_path, validation_issue, EntryView, PlaylistEntry, PlaylistError, PlaylistErrorView,
    ReviewedPlaylistMediaAsset,
};
use crate::text::{
    char_seq_le, chars_eq, chars_le, chars_of, debug_quoted, opt_view, push_str, str_debug, string_of,
    unicode_lowercase,
};
use crate::native_url::string_views;
use crate::package_compare::{debug_text_list, push_debug_text_list};
use crate::playlist::{bytes_eq, PackageReadbackField};
use crate::text::{str_eq, vec_views};

verus! {

/// The kind of a package member.
#[derive(Debug, Clone, Copy, PartialEq, Eq, Structural)]
pub enum PackageMemberKind {
    /// An embedded presentation.
    Presentation,
    /// A media file.
    Media,
}

/// One planned archive member.
#[derive(Debug)]
pub struct PackageMember {
    /// Archive path.
    pub path: String,
    /// Member kind.
    pub kind: PackageMemberKind,
    /// Member bytes.
    pub data: Vec<u8>,
}

/// A member as plain values.
pub type MemberView = (Seq<char>, PackageMemberKind, Seq<u8>);

/// The plain values of members.
pub open spec fn member_views(v: Seq<PackageMember>) -> Seq<MemberView> {
    v.map_values(|m: PackageMember| (m.path@, m.kind, m.data@))
}

/// The reserved document member as a path.
pub open spec fn data_path() -> Seq<char> {
    seq!['d', 'a', 't', 'a']
}

/// The first basename clash: the first entry that clashes and the earlier
/// source it clashes with.
pub open spec fn first_clash(es: Seq<EntryView>) -> (int, int) {
    choose|j: int, i: int| #[trigger] basename_clash(es, j, i) && no_clash_before(es, i)
}

/// The embedded name of each entry.
pub open spec fn embedded_names(es: Seq<EntryView>) -> Seq<Option<Seq<char>>> {
    Seq::new(es.len(), |i: int| embedded_name_at(es, i))
}

/// No names for `n` entries.
pub open spec fn no_names(n: nat) -> Seq<Option<Seq<char>>> {
    Seq::new(n, |i: int| None::<Seq<char>>)
}

/// The names entries start from: the embedded names when presentations are
/// embedded, else none.
pub open spec fn initial_names(es: Seq<EntryView>, embed: bool) -> Result<Seq<Option<Seq<char>>>, PlaylistErrorView> {
    if embed {
        embedded_names_outcome(es)
    } else {
        Ok(no_names(es.len()))
    }
}

/// What allocating embedded names gives: each entry's name, or the first
/// clash.
pub open spec fn embedded_names_outcome(es: Seq<EntryView>) -> Result<Seq<Option<Seq<char>>>, PlaylistErrorView> {
    if no_clash_before(es, es.len() as int) {
        Ok(embedded_names(es))
    } else {
        let p = first_clash(es);
        Err(PlaylistErrorView::DuplicateEmbeddedPresentationBasename(es[p.0].2, es[p.0].1, es[p.1].1))
    }
}

/// The checked names of the first `n` slots with the case-folded paths
/// reserved, or the first failure.
pub open spec fn reserve_names(names: Seq<Option<Seq<char>>>, n: int) -> Result<
    (Seq<Option<Seq<char>>>, Seq<Seq<char>>),
    PlaylistErrorView,
>
    decreases n,
{
    if n <= 0 {
        Ok((Seq::empty(), seq![data_path()]))
    } else {
        match reserve_names(names, n - 1) {
            Err(e) => Err(e),
            Ok(st) => match names[n - 1] {
                None => Ok((st.0.push(None), st.1)),
                Some(f) => match validated_archive_path(f, false) {
                    Err(e) => Err(e),
                    Ok(v) => if st.1.contains(unicode_lowercase(v)) {
                        Err(PlaylistErrorView::DuplicateArchiveEntry(v))
                    } else {
                        Ok((st.0.push(Some(v)), st.1.push(unicode_lowercase(v))))
                    },
                },
            },
        }
    }
}

/// The media members of the first `n` reviewed assets after the reserved
/// paths, or the first failure.
pub open spec fn media_members(assets: Seq<(Seq<char>, Seq<u8>)>, keys: Seq<Seq<char>>, n: int) -> Result<
    (Seq<MemberView>, Seq<Seq<char>>),
    PlaylistErrorView,
>
    decreases n,
{
    if n <= 0 {
        Ok((Seq::empty(), keys))
    } else {
        match media_members(assets, keys, n - 1) {
            Err(e) => Err(e),
            Ok(st) => {
                let path = assets[n - 1].0;
                if names_presentation(path) {
                    Err(PlaylistErrorView::InvalidArchivePath(path))
                } else if st.1.contains(unicode_lowercase(path)) {
                    Err(PlaylistErrorView::DuplicateArchiveEntry(path))
                } else {
                    Ok((st.0.push((path, PackageMemberKind::Media, assets[n - 1].1)), st.1.push(unicode_lowercase(path))))
                }
            },
        }
    }
}

/// The presentation members of the first `n` entries: each embedded entry
/// with an archive name.
pub open spec fn presentation_members(es: Seq<EntryView>, names: Seq<Option<Seq<char>>>, n: int) -> Seq<MemberView>
    decreases n,
{
    if n <= 0 {
        Seq::empty()
    } else {
        let prev = presentation_members(es, names, n - 1);
        match (es[n - 1].3, names[n - 1]) {
            (Some(d), Some(p)) => prev.push((p, PackageMemberKind::Presentation, d)),
            _ => prev,
        }
    }
}

/// The first embedded-source conflict.
pub open spec fn first_conflict(es: Seq<EntryView>) -> (int, int) {
    choose|j: int, i: int| #[trigger] source_conflict(es, j, i) && forall|q: int, k: int| k < i ==> !#[trigger] source_conflict(es, q, k)
}

/// Whether some embedded copy conflicts with its source's first copy.
pub open spec fn has_conflict(es: Seq<EntryView>) -> bool {
    exists|j: int, i: int| #[trigger] source_conflict(es, j, i)
}

/// The reviewed assets as plain values.
pub open spec fn asset_views(v: Seq<ReviewedPlaylistMediaAsset>) -> Seq<(Seq<char>, Seq<u8>)> {
    v.map_values(|a: ReviewedPlaylistMediaAsset| (a.archive_path@, a.data@))
}

/// What planning a package gives: its members, or the first failure among
/// name allocation, name checks, the document/entry contract, embedded
/// source consistency and media identities.
pub open spec fn plan_outcome(
    d: PlaylistDocument,
    es: Seq<EntryView>,
    embed: bool,
    assets: Seq<(Seq<char>, Seq<u8>)>,
) -> Result<Seq<MemberView>, PlaylistErrorView> {
    match initial_names(es, embed) {
        Err(e) => Err(e),
        Ok(n0) => match reserve_names(n0, n0.len() as int) {
            Err(e) => Err(e),
            Ok(st) => match validation_issue(document_summaries(d), es, st.0) {
                Some(e) => Err(e),
                None => if embed && has_conflict(es) {
                    let p = first_conflict(es);
                    Err(PlaylistErrorView::ConflictingEmbeddedSource(es[p.1].1, p.0, p.1))
                } else {
                    match media_members(assets, st.1, assets.len() as int) {
                        Err(e) => Err(e),
                        Ok(m) => Ok(presentation_members(es, st.0, es.len() as int) + m.0),
                    }
                },
            },
        },
    }
}

/// Two item summaries hold the same values.
pub open spec fn same_item_values(a: PlaylistItemSummary, b: PlaylistItemSummary) -> bool {
    &&& opt_view(a.item_uuid) == opt_view(b.item_uuid)
    &&& a.name@ == b.name@
    &&& string_views(a.item_tags@) == string_views(b.item_tags@)
    &&& a.is_hidden == b.is_hidden
    &&& a.document_platform == b.document_platform
    &&& opt_view(a.absolute_string) == opt_view(b.absolute_string)
    &&& opt_view(a.storage_relative_path) == opt_view(b.storage_relative_path)
    &&& opt_view(a.local_relative_path) == opt_view(b.local_relative_path)
    &&& a.local_root == b.local_root
    &&& opt_view(a.external_relative_path) == opt_view(b.external_relative_path)
    &&& opt_view(a.arrangement_uuid) == opt_view(b.arrangement_uuid)
    &&& a.content_destination == b.content_destination
    &&& a.user_music_key == b.user_music_key
    &&& a.arrangement_name@ == b.arrangement_name@
}

/// Two runs of item summaries hold the same values, position by position.
pub open spec fn same_item_runs(a: Seq<PlaylistItemSummary>, b: Seq<PlaylistItemSummary>) -> bool {
    a.len() == b.len() && forall|k: int| 0 <= k < a.len() ==> same_item_values(#[trigger] a[k], b[k])
}

/// `x` inserted into an ascending run of texts after every text not above it.
pub open spec fn insert_text(s: Seq<Seq<char>>, x: Seq<char>) -> Seq<Seq<char>>
    decreases s.len(),
{
    if s.len() == 0 {
        seq![x]
    } else if char_seq_le(s[0], x) {
        seq![s[0]] + insert_text(s.drop_first(), x)
    } else {
        seq![x] + s
    }
}

/// Texts in ascending `String` order.
pub open spec fn sorted_texts(s: Seq<Seq<char>>) -> Seq<Seq<char>>
    decreases s.len(),
{
    if s.len() == 0 {
        Seq::empty()
    } else {
        insert_text(sorted_texts(s.drop_last()), s.last())
    }
}

/// The member names a written package must hold, in order: the planned
/// paths and `data`, sorted.
pub open spec fn expected_order(members: Seq<MemberView>) -> Seq<Seq<char>> {
    sorted_texts(member_paths(members).push(data_path()))
}

/// The paths of members.
pub open spec fn member_paths(members: Seq<MemberView>) -> Seq<Seq<char>> {
    members.map_values(|m: MemberView| m.0)
}

/// The first stored member named `path` holds `data`.
pub open spec fn member_intact(stored: Seq<(Seq<char>, Seq<u8>)>, path: Seq<char>, data: Seq<u8>) -> bool {
    exists|k: int|
        {
            &&& 0 <= k < stored.len()
            &&& #[trigger] stored[k] == (path, data)
            &&& forall|q: int| 0 <= q < k ==> (#[trigger] stored[q]).0 != path
        }
}

/// Planned member `k` did not read back intact.
pub open spec fn member_broken(members: Seq<MemberView>, stored: Seq<(Seq<char>, Seq<u8>)>, k: int) -> bool {
    0 <= k < members.len() && !member_intact(stored, members[k].0, members[k].2)
}

/// The first planned member that did not read back intact.
pub open spec fn first_broken(members: Seq<MemberView>, stored: Seq<(Seq<char>, Seq<u8>)>) -> int {
    choose|k: int| #[trigger] member_broken(members, stored, k) && forall|q: int| 0 <= q < k ==> !member_broken(members, stored, q)
}

/// The word naming a member kind.
pub open spec fn kind_text(kind: PackageMemberKind) -> Seq<char> {
    match kind {
        PackageMemberKind::Presentation => "presentation"@,
        PackageMemberKind::Media => "media"@,
    }
}

/// What checking a package read back after writing gives: the first part
/// that differs from the plan (the `data` bytes, the presentation items,
/// the sorted member names, a planned member's bytes, an archive comment),
/// or success.
pub open spec fn readback_outcome(
    document_bytes: Seq<u8>,
    items: Seq<PlaylistItemSummary>,
    members: Seq<MemberView>,
    package: PlaylistPackage,
) -> Result<(), PlaylistErrorView> {
    let order = expected_order(members);
    let actual = entry_names(package.entries());
    if package.data() != document_bytes {
        Err(PlaylistErrorView::PackageReadbackMismatch(
            PackageReadbackField::Document,
            "the data member changed during archive serialization"@,
        ))
    } else if !same_item_runs(document_summaries(package.doc()), items) {
        Err(PlaylistErrorView::PackageReadbackMismatch(
            PackageReadbackField::Items,
            "presentation item identity, URL, arrangement, or key changed"@,
        ))
    } else if actual != order {
        Err(PlaylistErrorView::PackageReadbackMismatch(
            PackageReadbackField::ArchiveOrder,
            "expected "@ + debug_text_list(order) + ", found "@ + debug_text_list(actual),
        ))
    } else if exists|k: int| #[trigger] member_broken(members, package.stored(), k) {
        let k = first_broken(members, package.stored());
        Err(PlaylistErrorView::PackageReadbackMismatch(
            PackageReadbackField::MemberBytes,
            kind_text(members[k].1) + " member "@ + debug_quoted(members[k].0) + " changed or is missing"@,
        ))
    } else if package.comment().len() != 0 {
        Err(PlaylistErrorView::PackageReadbackMismatch(
            PackageReadbackField::ArchiveComment,
            "native packages must not carry an archive comment"@,
        ))
    } else {
        Ok(())
    }
}

/// A checked plan for one native playlist archive: the encoded document,
/// the summaries of its presentation items, and the members other than the
/// document member `data`.
pub struct PlaylistPackagePlan {
    document: Ghost<PlaylistDocument>,
    document_bytes: Vec<u8>,
    items: Vec<PlaylistItemSummary>,
    members: Vec<PackageMember>,
}

proof fn lemma_names_outcome_err(es: Seq<EntryView>, j: int, i: int)
    requires
        basename_clash(es, j, i),
        no_clash_before(es, i),
    ensures
        !no_clash_before(es, es.len() as int),
        first_clash(es) == (j, i),
{
    assert(!no_clash_before(es, es.len() as int)) by {
        assert(basename_clash(es, j, i));
    }
    assert(basename_clash(es, j, i) && no_clash_before(es, i));
    let p = first_clash(es);
    assert(basename_clash(es, p.0, p.1) && no_clash_before(es, p.1));
    if p.1 < i {
        assert(basename_clash(es, p.0, p.1));
    } else if p.1 > i {
        assert(basename_clash(es, j, i));
    }
    assert(p.1 == i);
    if p.0 < j {
        assert(basename_clash(es, p.0, j));
    } else if p.0 > j {
        assert(basename_clash(es, j, p.0));
    }
}

proof fn lemma_conflict_first(es: Seq<EntryView>, j: int, i: int)
    requires
        source_conflict(es, j, i),
        forall|q: int, k: int| k < i ==> !#[trigger] source_conflict(es, q, k),
    ensures
        has_conflict(es),
        first_conflict(es) == (j, i),
{
    assert(source_conflict(es, j, i));
    let p = first_conflict(es);
    assert(source_conflict(es, p.0, p.1) && forall|q: int, k: int| k < p.1 ==> !#[trigger] source_conflict(es, q, k));
    if p.1 < i {
        assert(!source_conflict(es, p.0, p.1));
    } else if p.1 > i {
        assert(!source_conflict(es, j, i));
    }
    assert(p.1 == i);
    if p.0 != j {
        assert(first_embedded_source(es, p.0) && first_embedded_source(es, j));
        assert(es[p.0].1 == es[j].1);
        if p.0 < j {
            assert(es[p.0].3 is Some && es[p.0].1 == es[j].1);
        } else {
            assert(es[j].3 is Some && es[j].1 == es[p.0].1);
        }
    }
}

proof fn lemma_reserve_err_persists(names: Seq<Option<Seq<char>>>, k: int, n: int)
    requires
        1 <= k <= n,
        reserve_names(names, k) is Err,
    ensures
        reserve_names(names, n) == reserve_names(names, k),
    decreases n - k,
{
    if n > k {
        lemma_reserve_err_persists(names, k, n - 1);
    }
}

proof fn lemma_media_err_persists(assets: Seq<(Seq<char>, Seq<u8>)>, keys: Seq<Seq<char>>, k: int, n: int)
    requires
        1 <= k <= n,
        media_members(assets, keys, k) is Err,
    ensures
        media_members(assets, keys, n) == media_members(assets, keys, k),
    decreases n - k,
{
    if n > k {
        lemma_media_err_persists(assets, keys, k, n - 1);
    }
}

/// A fresh copy of a byte slice.
fn copy_bytes(d: &[u8]) -> (r: Vec<u8>)
    ensures
        r@ == d@,
{
    let mut r: Vec<u8> = Vec::new();
    let mut i: usize = 0;
    while i < d.len()
        invariant
            i <= d.len(),
            r@ == d@.subrange(0, i as int),
        decreases d.len() - i,
    {
        r.push(d[i]);
        i += 1;
    }
    proof {
        assert(d@.subrange(0, d@.len() as int) =~= d@);
    }
    r
}

fn same_strings(a: &Vec<String>, b: &Vec<String>) -> (r: bool)
    ensures
        r == (string_views(a@) == string_views(b@)),
{
    if a.len() != b.len() {
        proof {
            assert(string_views(a@).len() != string_views(b@).len());
        }
        return false;
    }
    let mut k: usize = 0;
    while k < a.len()
        invariant
            k <= a.len() == b.len(),
            forall|q: int| 0 <= q < k ==> #[trigger] a@[q]@ == b@[q]@,
        decreases a.len() - k,
    {
        if !str_eq(a[k].as_str(), b[k].as_str()) {
            proof {
                assert(string_views(a@)[k as int] != string_views(b@)[k as int]);
            }
            return false;
        }
        k += 1;
    }
    proof {
        assert(string_views(a@) =~= string_views(b@));
    }
    true
}

fn same_opt_text(a: &Option<String>, b: &Option<String>) -> (r: bool)
    ensures
        r == (opt_view(*a) == opt_view(*b)),
{
    match (a, b) {
        (Some(x), Some(y)) => str_eq(x.as_str(), y.as_str()),
        (None, None) => true,
        _ => false,
    }
}

fn same_opt_i32(a: Option<i32>, b: Option<i32>) -> (r: bool)
    ensures
        r == (a == b),
{
    match (a, b) {
        (Some(x), Some(y)) => x == y,
        (None, None) => true,
        _ => false,
    }
}

fn same_opt_pair(a: Option<(i32, i32)>, b: Option<(i32, i32)>) -> (r: bool)
    ensures
        r == (a == b),
{
    match (a, b) {
        (Some(x), Some(y)) => x.0 == y.0 && x.1 == y.1,
        (None, None) => true,
        _ => false,
    }
}

fn same_item_values_exec(a: &PlaylistItemSummary, b: &PlaylistItemSummary) -> (r: bool)
    ensures
        r == same_item_values(*a, *b),
{
    same_opt_text(&a.item_uuid, &b.item_uuid) && str_eq(a.name.as_str(), b.name.as_str()) && same_strings(
        &a.item_tags,
        &b.item_tags,
    ) && a.is_hidden == b.is_hidden && same_opt_i32(a.document_platform, b.document_platform) && same_opt_text(
        &a.absolute_string,
        &b.absolute_string,
    ) && same_opt_text(&a.storage_relative_path, &b.storage_relative_path) && same_opt_text(
        &a.local_relative_path,
        &b.local_relative_path,
    ) && same_opt_i32(a.local_root, b.local_root) && same_opt_text(&a.external_relative_path, &b.external_relative_path)
        && same_opt_text(&a.arrangement_uuid, &b.arrangement_uuid) && a.content_destination == b.content_destination
        && same_opt_pair(a.user_music_key, b.user_music_key) && str_eq(a.arrangement_name.as_str(), b.arrangement_name.as_str())
}

fn same_item_runs_exec(a: &[PlaylistItemSummary], b: &[PlaylistItemSummary]) -> (r: bool)
    ensures
        r == same_item_runs(a@, b@),
{
    if a.len() != b.len() {
        return false;
    }
    let mut k: usize = 0;
    while k < a.len()
        invariant
            k <= a.len() == b.len(),
            forall|q: int| 0 <= q < k ==> same_item_values(#[trigger] a@[q], b@[q]),
        decreases a.len() - k,
    {
        if !same_item_values_exec(&a[k], &b[k]) {
            return false;
        }
        k += 1;
    }
    true
}

proof fn lemma_same_runs_transfer(
    x: Seq<PlaylistItemSummary>,
    a: Seq<PlaylistItemSummary>,
    y: Seq<PlaylistItemSummary>,
    b: Seq<PlaylistItemSummary>,
)
    requires
        same_summaries(x, a),
        same_summaries(y, b),
    ensures
        same_item_runs(x, y) == same_item_runs(a, b),
{
    assert forall|k: int| 0 <= k < x.len() && k < y.len() implies same_item_values(#[trigger] x[k], y[k]) == same_item_values(a[k], b[k]) by {
        assert(same_summary(x[k], a[k]));
        assert(same_summary(y[k], b[k]));
    }
    if same_item_runs(x, y) {
        assert forall|k: int| 0 <= k < a.len() implies same_item_values(#[trigger] a[k], b[k]) by {
            assert(same_item_values(x[k], y[k]));
        }
    }
    if same_item_runs(a, b) {
        assert forall|k: int| 0 <= k < x.len() implies same_item_values(#[trigger] x[k], y[k]) by {
            assert(same_item_values(a[k], b[k]));
        }
    }
}

proof fn lemma_insert_text_split(s: Seq<Seq<char>>, x: Seq<char>, p: int)
    requires
        0 <= p <= s.len(),
        forall|k: int| 0 <= k < p ==> char_seq_le(#[trigger] s[k], x),
        p < s.len() ==> !char_seq_le(s[p], x),
    ensures
        insert_text(s, x) == s.take(p) + seq![x] + s.skip(p),
    decreases p,
{
    if p == 0 {
        if s.len() == 0 {
            assert(s.take(0) + seq![x] + s.skip(0) =~= seq![x]);
        } else {
            assert(s.take(0) + seq![x] + s.skip(0) =~= seq![x] + s);
        }
    } else {
        let t = s.drop_first();
        assert forall|k: int| 0 <= k < p - 1 implies char_seq_le(#[trigger] t[k], x) by {
            assert(t[k] == s[k + 1]);
        }
        if p - 1 < t.len() {
            assert(t[p - 1] == s[p]);
        }
        lemma_insert_text_split(t, x, p - 1);
        assert(seq![s[0]] + (t.take(p - 1) + seq![x] + t.skip(p - 1)) =~= s.take(p) + seq![x] + s.skip(p));
    }
}

fn sort_texts(v: Vec<Vec<char>>) -> (r: Vec<Vec<char>>)
    ensures
        vec_views(r@) == sorted_texts(vec_views(v@)),
{
    let ghost vv = vec_views(v@);
    let mut r: Vec<Vec<char>> = Vec::new();
    let mut i: usize = 0;
    proof {
        assert(vv.take(0) =~= Seq::<Seq<char>>::empty());
        assert(vec_views(r@) =~= Seq::<Seq<char>>::empty());
    }
    while i < v.len()
        invariant
            i <= v.len(),
            vv == vec_views(v@),
            vec_views(r@) == sorted_texts(vv.take(i as int)),
        decreases v.len() - i,
    {
        let x = v[i].clone();
        let ghost rv = vec_views(r@);
        let mut p: usize = 0;
        while p < r.len() && chars_le(r[p].as_slice(), x.as_slice())
            invariant
                p <= r.len(),
                rv == vec_views(r@),
                forall|k: int| 0 <= k < p ==> char_seq_le(#[trigger] rv[k], x@),
            decreases r.len() - p,
        {
            proof {
                assert(rv[p as int] == r@[p as int]@);
            }
            p += 1;
        }
        proof {
            assert(x@ == vv[i as int]);
            assert(vv.take(i + 1).drop_last() =~= vv.take(i as int));
            assert(vv.take(i + 1).last() == x@);
            if p < r.len() {
                assert(rv[p as int] == r@[p as int]@);
            }
            lemma_insert_text_split(rv, x@, p as int);
        }
        let ghost before = r@;
        let ghost xv = x@;
        r.insert(p, x);
        proof {
            assert(vec_views(r@) =~= rv.take(p as int) + seq![xv] + rv.skip(p as int));
        }
        i += 1;
    }
    proof {
        assert(vv.take(v.len() as int) =~= vv);
    }
    r
}

fn texts_eq(a: &Vec<Vec<char>>, b: &Vec<Vec<char>>) -> (r: bool)
    ensures
        r == (vec_views(a@) == vec_views(b@)),
{
    if a.len() != b.len() {
        proof {
            assert(vec_views(a@).len() != vec_views(b@).len());
        }
        return false;
    }
    let mut k: usize = 0;
    while k < a.len()
        invariant
            k <= a.len() == b.len(),
            forall|q: int| 0 <= q < k ==> #[trigger] a@[q]@ == b@[q]@,
        decreases a.len() - k,
    {
        if !chars_eq(a[k].as_slice(), b[k].as_slice()) {
            proof {
                assert(vec_views(a@)[k as int] != vec_views(b@)[k as int]);
            }
            return false;
        }
        k += 1;
    }
    proof {
        assert(vec_views(a@) =~= vec_views(b@));
    }
    true
}

fn mismatch(field: PackageReadbackField, details: String) -> (e: PlaylistError)
    ensures
        e@ == PlaylistErrorView::PackageReadbackMismatch(field, details@),
{
    PlaylistError::PackageReadbackMismatch { field, details }
}

impl PlaylistPackagePlan {
    /// The stored item summaries are those of the planned document.
    #[verifier::type_invariant]
    spec fn items_match(self) -> bool {
        same_summaries(self.items@, document_summaries(self.document@))
    }

    /// The planned members, in plan order.
    pub closed spec fn members_view(self) -> Seq<MemberView> {
        member_views(self.members@)
    }

    /// The planned playlist document.
    pub closed spec fn planned_document(self) -> PlaylistDocument {
        self.document@
    }

    /// The planned bytes of the `data` member.
    pub closed spec fn document_data(self) -> Seq<u8> {
        self.document_bytes@
    }

    /// Check a document against its entries and assign every archive
    /// identity: see [`plan_outcome`]. `document_bytes` is the document's
    /// protobuf encoding, written as the `data` member.
    pub fn new(
        document: &PlaylistDocument,
        document_bytes: &[u8],
        entries: &[PlaylistEntry],
        embed_presentations: bool,
        media_assets: &[ReviewedPlaylistMediaAsset],
    ) -> (r: Result<PlaylistPackagePlan, PlaylistError>)
        ensures
            match r {
                Ok(p) => plan_outcome(*document, entry_views(entries@), embed_presentations, asset_views(media_assets@))
                    == Ok::<Seq<MemberView>, PlaylistErrorView>(p.members_view()) && p.planned_document() == *document
                    && p.document_data() == document_bytes@,
                Err(e) => plan_outcome(*document, entry_views(entries@), embed_presentations, asset_views(media_assets@))
                    == Err::<Seq<MemberView>, PlaylistErrorView>(e@),
            },
    {
        let ghost es = entry_views(entries@);
        let ghost av = asset_views(media_assets@);
        let names0: Vec<Option<String>> = if embed_presentations {
            match embedded_filenames(entries) {
                Ok(n) => {
                    proof {
                        assert(name_views(n@) =~= embedded_names(es));
                    }
                    n
                },
                Err(e) => {
                    proof {
                        let (j, i) = choose|j: int, i: int|
                            {
                                &&& #[trigger] basename_clash(es, j, i)
                                &&& no_clash_before(es, i)
                                &&& e@ == PlaylistErrorView::DuplicateEmbeddedPresentationBasename(es[j].2, es[j].1, es[i].1)
                            };
                        lemma_names_outcome_err(es, j, i);
                    }
                    return Err(e);
                },
            }
        } else {
            let mut n: Vec<Option<String>> = Vec::new();
            let mut k: usize = 0;
            while k < entries.len()
                invariant
                    k <= entries.len(),
                    n@.len() == k,
                    forall|q: int| 0 <= q < k ==> (#[trigger] n@[q]) is None,
                decreases entries.len() - k,
            {
                n.push(None);
                k += 1;
            }
            proof {
                assert(name_views(n@) =~= no_names(es.len()));
            }
            n
        };
        let ghost n0 = name_views(names0@);
        assert(initial_names(es, embed_presentations) == Ok::<Seq<Option<Seq<char>>>, PlaylistErrorView>(n0));
        let mut reserved: Vec<String> = Vec::new();
        reserved.push("data".to_string());
        let mut names: Vec<Option<String>> = Vec::new();
        proof {
            reveal_strlit("data");
            assert("data"@ =~= data_path());
            assert(string_views(reserved@) =~= seq![data_path()]);
            assert(name_views(names@) =~= Seq::<Option<Seq<char>>>::empty());
        }
        let mut i: usize = 0;
        while i < names0.len()
            invariant
                i <= names0.len(),
                n0 == name_views(names0@),
                es == entry_views(entries@),
                av == asset_views(media_assets@),
                initial_names(es, embed_presentations) == Ok::<Seq<Option<Seq<char>>>, PlaylistErrorView>(n0),
                names@.len() == i,
                reserve_names(n0, i as int) == Ok::<(Seq<Option<Seq<char>>>, Seq<Seq<char>>), PlaylistErrorView>(
                    (name_views(names@), string_views(reserved@)),
                ),
            decreases names0.len() - i,
        {
            proof {
                assert(n0[i as int] == opt_view(names0@[i as int]));
            }
            match &names0[i] {
                None => {
                    let ghost before = names@;
                    names.push(None);
                    proof {
                        assert(name_views(names@) =~= name_views(before).push(None));
                    }
                },
                Some(f) => {
                    let v = match validate_archive_path(f.as_str(), false) {
                        Ok(v) => v,
                        Err(e) => {
                            proof {
                                lemma_reserve_err_persists(n0, i + 1, n0.len() as int);
                            }
                            return Err(e);
                        },
                    };
                    match reserve_archive_path(&mut reserved, v.as_str()) {
                        Ok(()) => {},
                        Err(e) => {
                            proof {
                                lemma_reserve_err_persists(n0, i + 1, n0.len() as int);
                            }
                            return Err(e);
                        },
                    }
                    let ghost before = names@;
                    let ghost vv = v@;
                    names.push(Some(v));
                    proof {
                        assert(opt_view(names@[i as int]) == Some(vv));
                        assert(name_views(names@) =~= name_views(before).push(Some(vv)));
                    }
                },
            }
            i += 1;
        }
        let ghost st = (name_views(names@), string_views(reserved@));
        match validate_playlist_matches_entries(document, entries, names.as_slice()) {
            Ok(()) => {},
            Err(e) => return Err(e),
        }
        if embed_presentations {
            match validate_embedded_source_consistency(entries) {
                Ok(()) => {
                    proof {
                        assert(!has_conflict(es));
                    }
                },
                Err(e) => {
                    proof {
                        let (j, k) = choose|j: int, k: int|
                            {
                                &&& #[trigger] source_conflict(es, j, k)
                                &&& forall|q: int, p: int| p < k ==> !#[trigger] source_conflict(es, q, p)
                                &&& e@ == PlaylistErrorView::ConflictingEmbeddedSource(es[k].1, j, k)
                            };
                        lemma_conflict_first(es, j, k);
                    }
                    return Err(e);
                },
            }
        }
        proof {
            assert(plan_outcome(*document, es, embed_presentations, av) == match media_members(av, st.1, av.len() as int) {
                Err(e) => Err(e),
                Ok(m) => Ok(presentation_members(es, st.0, es.len() as int) + m.0),
            });
        }
        let mut members: Vec<PackageMember> = Vec::new();
        let mut k: usize = 0;
        proof {
            assert(member_views(members@) =~= Seq::<MemberView>::empty());
        }
        while k < entries.len()
            invariant
                k <= entries.len(),
                entries.len() == names@.len(),
                es == entry_views(entries@),
                st.0 == name_views(names@),
                member_views(members@) == presentation_members(es, st.0, k as int),
            decreases entries.len() - k,
        {
            proof {
                assert(es[k as int] == entries@[k as int]@);
                assert(st.0[k as int] == opt_view(names@[k as int]));
            }
            match (entries[k].embedded_data(), &names[k]) {
                (Some(d), Some(p)) => {
                    let ghost before = members@;
                    members.push(PackageMember { path: p.clone(), kind: PackageMemberKind::Presentation, data: copy_bytes(d) });
                    proof {
                        assert(member_views(members@) =~= member_views(before).push(
                            (p@, PackageMemberKind::Presentation, d@),
                        ));
                    }
                },
                _ => {},
            }
            k += 1;
        }
        let ghost pres = member_views(members@);
        let ghost mstart = string_views(reserved@);
        let mut m: usize = 0;
        proof {
            assert(pres + Seq::<MemberView>::empty() =~= pres);
        }
        while m < media_assets.len()
            invariant
                m <= media_assets.len(),
                av == asset_views(media_assets@),
                es == entry_views(entries@),
                pres == presentation_members(es, st.0, es.len() as int),
                plan_outcome(*document, es, embed_presentations, av) == match media_members(av, st.1, av.len() as int) {
                    Err(e) => Err(e),
                    Ok(mm) => Ok(presentation_members(es, st.0, es.len() as int) + mm.0),
                },
                mstart == st.1,
                media_members(av, mstart, m as int) matches Ok(ms) && member_views(members@) == pres + ms.0
                    && string_views(reserved@) == ms.1,
            decreases media_assets.len() - m,
        {
            let asset = &media_assets[m];
            proof {
                assert(av[m as int] == (asset.archive_path@, asset.data@));
            }
            match reject_presentation_media_path(asset.archive_path.as_str()) {
                Ok(()) => {},
                Err(e) => {
                    proof {
                        lemma_media_err_persists(av, mstart, m + 1, av.len() as int);
                    }
                    return Err(e);
                },
            }
            match reserve_archive_path(&mut reserved, asset.archive_path.as_str()) {
                Ok(()) => {},
                Err(e) => {
                    proof {
                        lemma_media_err_persists(av, mstart, m + 1, av.len() as int);
                    }
                    return Err(e);
                },
            }
            let ghost before = members@;
            members.push(PackageMember { path: asset.archive_path.clone(), kind: PackageMemberKind::Media, data: asset.data.clone() });
            proof {
                let ms = media_members(av, mstart, m as int)->Ok_0;
                assert(member_views(members@) =~= member_views(before).push(
                    (asset.archive_path@, PackageMemberKind::Media, asset.data@),
                ));
                assert(member_views(members@) =~= pres + ms.0.push((asset.archive_path@, PackageMemberKind::Media, asset.data@)));
            }
            m += 1;
        }
        let items = presentation_items(document);
        Ok(PlaylistPackagePlan { document: Ghost(*document), document_bytes: copy_bytes(document_bytes), items, members })
    }

    /// Check a package read back after writing this plan: see
    /// [`readback_outcome`].
    pub fn verify_readback(&self, package: &PlaylistPackage) -> (r: Result<(), PlaylistError>)
        ensures
            match r {
                Ok(()) => readback_outcome(
                    self.document_data(),
                    document_summaries(self.planned_document()),
                    self.members_view(),
                    *package,
                ) is Ok,
                Err(e) => readback_outcome(
                    self.document_data(),
                    document_summaries(self.planned_document()),
                    self.members_view(),
                    *package,
                ) == Err::<(), PlaylistErrorView>(e@),
            },
    {
        proof {
            use_type_invariant(self);
            reveal_strlit("data");
        }
        let ghost mv = self.members_view();
        if !bytes_eq(package.document_data(), self.document_bytes.as_slice()) {
            return Err(mismatch(PackageReadbackField::Document, "the data member changed during archive serialization".to_string()));
        }
        let actual_items = presentation_items(package.document());
        proof {
            lemma_same_runs_transfer(
                actual_items@,
                document_summaries(package.doc()),
                self.items@,
                document_summaries(self.document@),
            );
        }
        if !same_item_runs_exec(actual_items.as_slice(), self.items.as_slice()) {
            return Err(
                mismatch(PackageReadbackField::Items, "presentation item identity, URL, arrangement, or key changed".to_string()),
            );
        }
        let mut names: Vec<Vec<char>> = Vec::new();
        let mut k: usize = 0;
        while k < self.members.len()
            invariant
                k <= self.members.len(),
                mv == member_views(self.members@),
                vec_views(names@) == member_paths(mv).take(k as int),
            decreases self.members.len() - k,
        {
            let ghost before = names@;
            proof {
                assert(mv[k as int].0 == self.members@[k as int].path@);
                assert(member_paths(mv)[k as int] == mv[k as int].0);
            }
            names.push(chars_of(self.members[k].path.as_str()));
            proof {
                assert(vec_views(names@) =~= vec_views(before).push(self.members@[k as int].path@));
                assert(member_paths(mv).take(k + 1) =~= member_paths(mv).take(k as int).push(member_paths(mv)[k as int]));
                assert(vec_views(names@) =~= member_paths(mv).take(k + 1));
            }
            k += 1;
        }
        names.push(chars_of("data"));
        proof {
            assert("data"@ =~= data_path());
            assert(member_paths(mv).take(mv.len() as int) =~= member_paths(mv));
            assert(vec_views(names@) =~= member_paths(mv).push(data_path()));
        }
        let expected = sort_texts(names);
        let entries = package.archive_entries();
        let mut actual: Vec<Vec<char>> = Vec::new();
        let mut j: usize = 0;
        while j < entries.len()
            invariant
                j <= entries.len(),
                vec_views(actual@) == entry_names(entries@).take(j as int),
            decreases entries.len() - j,
        {
            let ghost before = actual@;
            actual.push(chars_of(entries[j].name.as_str()));
            proof {
                assert(vec_views(actual@) =~= vec_views(before).push(entries@[j as int].name@));
                assert(entry_names(entries@).take(j + 1) =~= entry_names(entries@).take(j as int).push(entry_names(entries@)[j as int]));
                assert(entry_names(entries@)[j as int] == entries@[j as int].name@);
                assert(vec_views(actual@) =~= entry_names(entries@).take(j + 1));
            }
            j += 1;
        }
        proof {
            assert(entry_names(entries@).take(entries@.len() as int) =~= entry_names(entries@));
        }
        if !texts_eq(&expected, &actual) {
            let mut m: Vec<char> = Vec::new();
            push_str(&mut m, "expected ");
            push_debug_text_list(&mut m, &expected);
            push_str(&mut m, ", found ");
            push_debug_text_list(&mut m, &actual);
            return Err(mismatch(PackageReadbackField::ArchiveOrder, string_of(m.as_slice())));
        }
        let ghost stored = package.stored();
        let mut q: usize = 0;
        while q < self.members.len()
            invariant
                q <= self.members.len(),
                mv == member_views(self.members@),
                stored == package.stored(),
                forall|p: int| 0 <= p < q ==> !member_broken(mv, stored, p),
                package.data() == self.document_data(),
                same_item_runs(document_summaries(package.doc()), document_summaries(self.planned_document())),
                entry_names(package.entries()) == expected_order(mv),
            decreases self.members.len() - q,
        {
            let member = &self.members[q];
            proof {
                assert(mv[q as int] == (member.path@, member.kind, member.data@));
            }
            let intact = match package.embedded_file(member.path.as_str()) {
                Some(b) => {
                    let same = bytes_eq(b, member.data.as_slice());
                    proof {
                        if !same && member_intact(stored, member.path@, member.data@) {
                            let k0 = choose|k: int|
                                {
                                    &&& 0 <= k < stored.len()
                                    &&& #[trigger] stored[k] == (member.path@, b@)
                                    &&& forall|x: int| 0 <= x < k ==> (#[trigger] stored[x]).0 != member.path@
                                };
                            let k1 = choose|k: int|
                                {
                                    &&& 0 <= k < stored.len()
                                    &&& #[trigger] stored[k] == (member.path@, member.data@)
                                    &&& forall|x: int| 0 <= x < k ==> (#[trigger] stored[x]).0 != member.path@
                                };
                            if k0 < k1 {
                                assert(stored[k0].0 == member.path@);
                            } else if k1 < k0 {
                                assert(stored[k1].0 == member.path@);
                            }
                        }
                    }
                    same
                },
                None => {
                    proof {
                        if member_intact(stored, member.path@, member.data@) {
                            let k1 = choose|k: int|
                                {
                                    &&& 0 <= k < stored.len()
                                    &&& #[trigger] stored[k] == (member.path@, member.data@)
                                    &&& forall|x: int| 0 <= x < k ==> (#[trigger] stored[x]).0 != member.path@
                                };
                            assert(stored[k1].0 == member.path@);
                        }
                    }
                    false
                },
            };
            if !intact {
                proof {
                    assert(member_broken(mv, stored, q as int));
                    let f = first_broken(mv, stored);
                    assert(member_broken(mv, stored, f) && forall|x: int| 0 <= x < f ==> !member_broken(mv, stored, x));
                    if f < q {
                        assert(!member_broken(mv, stored, f));
                    } else if f > q {
                        assert(!member_broken(mv, stored, q as int));
                    }
                }
                let mut m: Vec<char> = Vec::new();
                match member.kind {
                    PackageMemberKind::Presentation => push_str(&mut m, "presentation"),
                    PackageMemberKind::Media => push_str(&mut m, "media"),
                }
                push_str(&mut m, " member ");
                let quoted = str_debug(member.path.as_str());
                push_str(&mut m, quoted.as_str());
                push_str(&mut m, " changed or is missing");
                return Err(mismatch(PackageReadbackField::MemberBytes, string_of(m.as_slice())));
            }
            q += 1;
        }
        if package.archive_comment().len() != 0 {
            return Err(
                mismatch(PackageReadbackField::ArchiveComment, "native packages must not carry an archive comment".to_string()),
            );
        }
        Ok(())
    }

    /// The planned members, in plan order.
    pub fn members(&self) -> (r: &[PackageMember])
        ensures
            member_views(r@) == self.members_view(),
    {
        self.members.as_slice()
    }
}

} // verus!

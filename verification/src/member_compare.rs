//! Comparison of the embedded members of two packages by fingerprint.
//!
//! Members are grouped by archive path; each group's fingerprints (size and
//! CRC-32) are sorted, and groups are compared path by path in ascending
//! path order.
use vstd::prelude::*;
use crate::package_compare::{issue_views, PlaylistPackageIssue};
use crate::package_model::{embedded_entries, PackageFileSummary, PlaylistPackage};
use crate::presentation_graph::{insert_ascending, lemma_strictly_ascending_unique, strictly_ascending};
use crate::text::{chars_eq, chars_of, decimal, push_all, push_decimal, push_str, string_of, vec_views};

verus! {

/// A member fingerprint: its size and CRC-32.
pub type Fingerprint = (int, int);

/// The fingerprints of the embedded members named `name` of one kind
/// (presentations or media), in archive order.
pub open spec fn fps_of(entries: Seq<PackageFileSummary>, name: Seq<char>, presentation: bool) -> Seq<Fingerprint>
    decreases entries.len(),
{
    if entries.len() == 0 {
        Seq::empty()
    } else {
        let prev = fps_of(entries.drop_last(), name, presentation);
        let e = entries.last();
        if e.name@ == name && e.is_presentation == presentation {
            prev.push((e.size as int, e.crc32 as int))
        } else {
            prev
        }
    }
}

/// Fingerprint order: by size, then CRC-32.
pub open spec fn fp_le(a: Fingerprint, b: Fingerprint) -> bool {
    a.0 < b.0 || (a.0 == b.0 && a.1 <= b.1)
}

/// `x` inserted into an ascending run after every fingerprint not above it.
pub open spec fn insert_fp(s: Seq<Fingerprint>, x: Fingerprint) -> Seq<Fingerprint>
    decreases s.len(),
{
    if s.len() == 0 {
        seq![x]
    } else if fp_le(s[0], x) {
        seq![s[0]] + insert_fp(s.drop_first(), x)
    } else {
        seq![x] + s
    }
}

/// A run of fingerprints in ascending order.
pub open spec fn sorted_fps(s: Seq<Fingerprint>) -> Seq<Fingerprint>
    decreases s.len(),
{
    if s.len() == 0 {
        Seq::empty()
    } else {
        insert_fp(sorted_fps(s.drop_last()), s.last())
    }
}

/// The sorted fingerprints of the embedded members named `name`.
pub open spec fn member_fingerprints(entries: Seq<PackageFileSummary>, name: Seq<char>, presentation: bool) -> Seq<
    Fingerprint,
> {
    sorted_fps(fps_of(embedded_entries(entries), name, presentation))
}

/// Whether a package has an embedded member of the kind named `name`.
pub open spec fn has_member(entries: Seq<PackageFileSummary>, name: Seq<char>, presentation: bool) -> bool {
    fps_of(embedded_entries(entries), name, presentation).len() > 0
}

/// `names` lists, ascending, every member name of the kind in either package.
pub open spec fn is_member_listing(
    names: Seq<Seq<char>>,
    e: Seq<PackageFileSummary>,
    a: Seq<PackageFileSummary>,
    presentation: bool,
) -> bool {
    &&& strictly_ascending(names)
    &&& forall|u: Seq<char>| #![trigger names.contains(u)] names.contains(u) <==> (has_member(e, u, presentation) || has_member(a, u, presentation))
}

/// The member names of the kind in either package, ascending.
pub open spec fn member_listing(e: Seq<PackageFileSummary>, a: Seq<PackageFileSummary>, presentation: bool) -> Seq<
    Seq<char>,
> {
    choose|names: Seq<Seq<char>>| is_member_listing(names, e, a, presentation)
}

/// The debug text of one fingerprint.
pub open spec fn fp_item(f: Fingerprint) -> Seq<char> {
    "FileFingerprint { size: "@ + decimal(f.0 as nat) + ", crc32: "@ + decimal(f.1 as nat) + " }"@
}

/// The debug texts of fingerprints, separated by `, `.
pub open spec fn fp_items(s: Seq<Fingerprint>) -> Seq<char>
    decreases s.len(),
{
    if s.len() == 0 {
        Seq::empty()
    } else if s.len() == 1 {
        fp_item(s[0])
    } else {
        fp_items(s.drop_last()) + ", "@ + fp_item(s.last())
    }
}

/// The debug text of a run of fingerprints.
pub open spec fn fp_debug(s: Seq<Fingerprint>) -> Seq<char> {
    "["@ + fp_items(s) + "]"@
}

/// An issue without an item index.
pub open spec fn plain_issue(kind: Seq<char>, message: Seq<char>) -> Seq<(Seq<char>, Option<usize>, Seq<char>)> {
    seq![(kind, None, message)]
}

/// The issue of one presentation member path.
pub open spec fn presentation_member_issue(name: Seq<char>, e: Seq<Fingerprint>, a: Seq<Fingerprint>) -> Seq<
    (Seq<char>, Option<usize>, Seq<char>),
> {
    if e.len() > 0 && a.len() > 0 {
        if e == a {
            Seq::empty()
        } else if e.len() != a.len() {
            plain_issue(
                "embedded_presentation_count_mismatch"@,
                "presentation archive member '"@ + name + "' appears "@ + decimal(e.len()) + " time(s), found "@
                    + decimal(a.len()),
            )
        } else {
            plain_issue(
                "embedded_presentation_crc_mismatch"@,
                "presentation archive member '"@ + name + "' fingerprints differ: expected "@ + fp_debug(e)
                    + ", found "@ + fp_debug(a),
            )
        }
    } else if e.len() > 0 {
        plain_issue("missing_embedded_presentation"@, "missing embedded presentation '"@ + name + "'"@)
    } else if a.len() > 0 {
        plain_issue("extra_embedded_presentation"@, "extra embedded presentation '"@ + name + "'"@)
    } else {
        Seq::empty()
    }
}

/// The issue of one media member path.
pub open spec fn media_member_issue(name: Seq<char>, e: Seq<Fingerprint>, a: Seq<Fingerprint>) -> Seq<
    (Seq<char>, Option<usize>, Seq<char>),
> {
    if e.len() > 0 && a.len() > 0 {
        if e == a {
            Seq::empty()
        } else {
            plain_issue(
                "media_asset_fingerprint_mismatch"@,
                "media asset '"@ + name + "' fingerprints differ: expected "@ + fp_debug(e) + ", found "@
                    + fp_debug(a),
            )
        }
    } else if e.len() > 0 {
        plain_issue("missing_media_asset"@, "missing media asset '"@ + name + "'"@)
    } else if a.len() > 0 {
        plain_issue("extra_media_asset"@, "extra media asset '"@ + name + "'"@)
    } else {
        Seq::empty()
    }
}

/// The issues of the listed member paths, in order.
pub open spec fn member_issues(
    names: Seq<Seq<char>>,
    e: Seq<PackageFileSummary>,
    a: Seq<PackageFileSummary>,
    presentation: bool,
) -> Seq<(Seq<char>, Option<usize>, Seq<char>)>
    decreases names.len(),
{
    if names.len() == 0 {
        Seq::empty()
    } else {
        let n = names.last();
        let ef = member_fingerprints(e, n, presentation);
        let af = member_fingerprints(a, n, presentation);
        member_issues(names.drop_last(), e, a, presentation) + if presentation {
            presentation_member_issue(n, ef, af)
        } else {
            media_member_issue(n, ef, af)
        }
    }
}

// ---------------------------------------------------------------------------
// Executable comparison
// ---------------------------------------------------------------------------

fn fps_exec(details: &Vec<&PackageFileSummary>, name: &Vec<char>, presentation: bool) -> (r: Vec<(u64, u32)>)
    ensures
        r@.map_values(|f: (u64, u32)| (f.0 as int, f.1 as int)) == fps_of(
            details@.map_values(|e: &PackageFileSummary| *e),
            name@,
            presentation,
        ),
{
    let ghost dv = details@.map_values(|e: &PackageFileSummary| *e);
    let mut r: Vec<(u64, u32)> = Vec::new();
    let mut i: usize = 0;
    proof {
        assert(dv.take(0) =~= Seq::<PackageFileSummary>::empty());
        assert(r@.map_values(|f: (u64, u32)| (f.0 as int, f.1 as int)) =~= Seq::<Fingerprint>::empty());
    }
    while i < details.len()
        invariant
            i <= details.len(),
            dv == details@.map_values(|e: &PackageFileSummary| *e),
            r@.map_values(|f: (u64, u32)| (f.0 as int, f.1 as int)) == fps_of(dv.take(i as int), name@, presentation),
        decreases details.len() - i,
    {
        let e = details[i];
        proof {
            assert(dv.take(i + 1).drop_last() =~= dv.take(i as int));
            assert(dv.take(i + 1).last() == *e);
        }
        if e.is_presentation == presentation && chars_eq(chars_of(e.name.as_str()).as_slice(), name.as_slice()) {
            let ghost before = r@;
            r.push((e.size, e.crc32));
            proof {
                assert(r@.map_values(|f: (u64, u32)| (f.0 as int, f.1 as int)) =~= before.map_values(
                    |f: (u64, u32)| (f.0 as int, f.1 as int),
                ).push((e.size as int, e.crc32 as int)));
            }
        }
        i += 1;
    }
    proof {
        assert(dv.take(details.len() as int) =~= dv);
    }
    r
}

/// Fingerprints as integers.
pub open spec fn fp_views(v: Seq<(u64, u32)>) -> Seq<Fingerprint> {
    v.map_values(|f: (u64, u32)| (f.0 as int, f.1 as int))
}

proof fn lemma_insert_fp_split(s: Seq<Fingerprint>, x: Fingerprint, p: int)
    requires
        0 <= p <= s.len(),
        forall|k: int| 0 <= k < p ==> fp_le(#[trigger] s[k], x),
        p < s.len() ==> !fp_le(s[p], x),
    ensures
        insert_fp(s, x) == s.take(p) + seq![x] + s.skip(p),
    decreases p,
{
    if p == 0 {
        if s.len() == 0 {
            assert(s.take(0) + seq![x] + s.skip(0) =~= seq![x]);
        } else {
            assert(s.take(0) + seq![x] + s.skip(0) =~= seq![x] + s);
        }
    } else {
        let t = s.drop_first();
        assert forall|k: int| 0 <= k < p - 1 implies fp_le(#[trigger] t[k], x) by {
            assert(t[k] == s[k + 1]);
        }
        if p - 1 < t.len() {
            assert(t[p - 1] == s[p]);
        }
        lemma_insert_fp_split(t, x, p - 1);
        assert(seq![s[0]] + (t.take(p - 1) + seq![x] + t.skip(p - 1)) =~= s.take(p) + seq![x] + s.skip(p));
    }
}

fn sort_fps(v: Vec<(u64, u32)>) -> (r: Vec<(u64, u32)>)
    ensures
        fp_views(r@) == sorted_fps(fp_views(v@)),
{
    let ghost vv = fp_views(v@);
    let mut r: Vec<(u64, u32)> = Vec::new();
    let mut i: usize = 0;
    proof {
        assert(vv.take(0) =~= Seq::<Fingerprint>::empty());
        assert(fp_views(r@) =~= Seq::<Fingerprint>::empty());
    }
    while i < v.len()
        invariant
            i <= v.len(),
            vv == fp_views(v@),
            fp_views(r@) == sorted_fps(vv.take(i as int)),
        decreases v.len() - i,
    {
        let x = v[i];
        let ghost rv = fp_views(r@);
        let ghost xv = (x.0 as int, x.1 as int);
        let mut p: usize = 0;
        while p < r.len() && (r[p].0 < x.0 || (r[p].0 == x.0 && r[p].1 <= x.1))
            invariant
                p <= r.len(),
                rv == fp_views(r@),
                xv == (x.0 as int, x.1 as int),
                forall|k: int| 0 <= k < p ==> fp_le(#[trigger] rv[k], xv),
            decreases r.len() - p,
        {
            proof {
                assert(rv[p as int] == (r@[p as int].0 as int, r@[p as int].1 as int));
            }
            p += 1;
        }
        proof {
            assert(vv.take(i + 1).drop_last() =~= vv.take(i as int));
            assert(vv.take(i + 1).last() == xv);
            if p < r.len() {
                assert(rv[p as int] == (r@[p as int].0 as int, r@[p as int].1 as int));
            }
            lemma_insert_fp_split(rv, xv, p as int);
        }
        let ghost before = r@;
        r.insert(p, x);
        proof {
            assert(r@ =~= before.take(p as int) + seq![x] + before.skip(p as int));
            assert(fp_views(r@) =~= rv.take(p as int) + seq![xv] + rv.skip(p as int));
        }
        i += 1;
    }
    proof {
        assert(vv.take(v.len() as int) =~= vv);
    }
    r
}

fn same_fps(a: &Vec<(u64, u32)>, b: &Vec<(u64, u32)>) -> (r: bool)
    ensures
        r == (fp_views(a@) == fp_views(b@)),
{
    let ghost av = fp_views(a@);
    let ghost bv = fp_views(b@);
    if a.len() != b.len() {
        proof {
            assert(av.len() != bv.len());
        }
        return false;
    }
    let mut i: usize = 0;
    while i < a.len()
        invariant
            i <= a.len(),
            a.len() == b.len(),
            av == fp_views(a@),
            bv == fp_views(b@),
            forall|k: int| 0 <= k < i ==> av[k] == bv[k],
        decreases a.len() - i,
    {
        if a[i].0 != b[i].0 || a[i].1 != b[i].1 {
            proof {
                assert(av[i as int] != bv[i as int]);
            }
            return false;
        }
        i += 1;
    }
    proof {
        assert(av =~= bv);
    }
    true
}

fn push_fp_debug(out: &mut Vec<char>, v: &Vec<(u64, u32)>)
    ensures
        final(out)@ == old(out)@ + fp_debug(fp_views(v@)),
{
    let ghost vv = fp_views(v@);
    let ghost start = out@;
    out.push('[');
    let mut i: usize = 0;
    proof {
        assert(vv.take(0) =~= Seq::<Fingerprint>::empty());
        assert(out@ =~= start + "["@ + fp_items(vv.take(0))) by {
            reveal_strlit("[");
        }
    }
    while i < v.len()
        invariant
            i <= v.len(),
            vv == fp_views(v@),
            out@ == start + "["@ + fp_items(vv.take(i as int)),
        decreases v.len() - i,
    {
        let ghost before = out@;
        if i > 0 {
            push_str(out, ", ");
        }
        push_str(out, "FileFingerprint { size: ");
        push_decimal(out, v[i].0);
        push_str(out, ", crc32: ");
        push_decimal(out, v[i].1 as u64);
        push_str(out, " }");
        proof {
            let t = vv.take(i + 1);
            assert(t.drop_last() =~= vv.take(i as int));
            assert(t.last() == (v@[i as int].0 as int, v@[i as int].1 as int));
            if i == 0 {
                assert(t.len() == 1);
                assert(fp_items(t) == fp_item(t[0]));
                reveal_strlit("");
            }
            assert(out@ =~= start + "["@ + fp_items(t));
        }
        i += 1;
    }
    push_str(out, "]");
    proof {
        assert(vv.take(v.len() as int) =~= vv);
        assert(out@ =~= old(out)@ + fp_debug(vv));
    }
}

fn push_plain(issues: &mut Vec<PlaylistPackageIssue>, kind: &str, message: Vec<char>)
    ensures
        issue_views(final(issues)@) == issue_views(old(issues)@) + plain_issue(kind@, message@),
{
    let ghost before = issues@;
    issues.push(PlaylistPackageIssue { kind: kind.to_string(), index: None, message: string_of(message.as_slice()) });
    proof {
        assert(issue_views(issues@) =~= issue_views(before) + plain_issue(kind@, message@));
    }
}

fn quoted_message(prefix: &str, name: &Vec<char>, suffix: &str) -> (r: Vec<char>)
    ensures
        r@ == prefix@ + name@ + suffix@,
{
    let mut m: Vec<char> = Vec::new();
    push_str(&mut m, prefix);
    push_all(&mut m, name.as_slice());
    push_str(&mut m, suffix);
    proof {
        assert(m@ =~= prefix@ + name@ + suffix@);
    }
    m
}

fn push_member_issue(
    issues: &mut Vec<PlaylistPackageIssue>,
    name: &Vec<char>,
    e: &Vec<(u64, u32)>,
    a: &Vec<(u64, u32)>,
    presentation: bool,
)
    ensures
        issue_views(final(issues)@) == issue_views(old(issues)@) + if presentation {
            presentation_member_issue(name@, fp_views(e@), fp_views(a@))
        } else {
            media_member_issue(name@, fp_views(e@), fp_views(a@))
        },
{
    let ghost ev = fp_views(e@);
    let ghost av = fp_views(a@);
    proof {
        assert(ev.len() == e.len());
        assert(av.len() == a.len());
    }
    if e.len() > 0 && a.len() > 0 {
        if same_fps(e, a) {
            proof {
                assert(issue_views(issues@) =~= issue_views(issues@) + Seq::<(Seq<char>, Option<usize>, Seq<char>)>::empty());
            }
        } else if presentation && e.len() != a.len() {
            let mut m = quoted_message("presentation archive member '", name, "' appears ");
            push_decimal(&mut m, e.len() as u64);
            push_str(&mut m, " time(s), found ");
            push_decimal(&mut m, a.len() as u64);
            push_plain(issues, "embedded_presentation_count_mismatch", m);
        } else if presentation {
            let mut m = quoted_message("presentation archive member '", name, "' fingerprints differ: expected ");
            push_fp_debug(&mut m, e);
            push_str(&mut m, ", found ");
            push_fp_debug(&mut m, a);
            push_plain(issues, "embedded_presentation_crc_mismatch", m);
        } else {
            let mut m = quoted_message("media asset '", name, "' fingerprints differ: expected ");
            push_fp_debug(&mut m, e);
            push_str(&mut m, ", found ");
            push_fp_debug(&mut m, a);
            push_plain(issues, "media_asset_fingerprint_mismatch", m);
        }
    } else if e.len() > 0 {
        if presentation {
            push_plain(issues, "missing_embedded_presentation", quoted_message("missing embedded presentation '", name, "'"));
        } else {
            push_plain(issues, "missing_media_asset", quoted_message("missing media asset '", name, "'"));
        }
    } else if a.len() > 0 {
        if presentation {
            push_plain(issues, "extra_embedded_presentation", quoted_message("extra embedded presentation '", name, "'"));
        } else {
            push_plain(issues, "extra_media_asset", quoted_message("extra media asset '", name, "'"));
        }
    } else {
        proof {
            assert(issue_views(issues@) =~= issue_views(issues@) + Seq::<(Seq<char>, Option<usize>, Seq<char>)>::empty());
        }
    }
}

fn collect_names(details: &Vec<&PackageFileSummary>, presentation: bool, names: &mut Vec<Vec<char>>)
    requires
        strictly_ascending(vec_views(old(names)@)),
    ensures
        strictly_ascending(vec_views(final(names)@)),
        forall|u: Seq<char>|
            #![trigger vec_views(final(names)@).contains(u)]
            vec_views(final(names)@).contains(u) <==> (vec_views(old(names)@).contains(u) || fps_of(
                details@.map_values(|e: &PackageFileSummary| *e),
                u,
                presentation,
            ).len() > 0),
{
    let ghost dv = details@.map_values(|e: &PackageFileSummary| *e);
    let ghost start = vec_views(names@);
    let mut i: usize = 0;
    proof {
        assert(dv.take(0) =~= Seq::<PackageFileSummary>::empty());
    }
    while i < details.len()
        invariant
            i <= details.len(),
            dv == details@.map_values(|e: &PackageFileSummary| *e),
            strictly_ascending(vec_views(names@)),
            forall|u: Seq<char>|
                #![trigger vec_views(names@).contains(u)]
                vec_views(names@).contains(u) <==> (start.contains(u) || fps_of(dv.take(i as int), u, presentation).len() > 0),
        decreases details.len() - i,
    {
        let e = details[i];
        let ghost old_names = vec_views(names@);
        proof {
            assert(dv.take(i + 1).drop_last() =~= dv.take(i as int));
            assert(dv.take(i + 1).last() == *e);
        }
        if e.is_presentation == presentation {
            let n = chars_of(e.name.as_str());
            let mut present = false;
            let mut k: usize = 0;
            while k < names.len()
                invariant
                    k <= names.len(),
                    present == exists|q: int| 0 <= q < k && vec_views(names@)[q] == n@,
                decreases names.len() - k,
            {
                proof {
                    assert(vec_views(names@)[k as int] == names@[k as int]@);
                }
                if chars_eq(names[k].as_slice(), n.as_slice()) {
                    present = true;
                }
                k += 1;
            }
            if !present {
                proof {
                    assert(!vec_views(names@).contains(n@));
                }
                insert_ascending(names, n);
            }
        }
        proof {
            assert forall|u: Seq<char>|
                #![trigger vec_views(names@).contains(u)]
                vec_views(names@).contains(u) <==> (start.contains(u) || fps_of(dv.take(i + 1), u, presentation).len() > 0) by {
                if vec_views(names@).contains(u) && !old_names.contains(u) {
                    assert(u == e.name@);
                }
                if old_names.contains(u) {
                    if !vec_views(names@).contains(u) {
                        let q = choose|q: int| 0 <= q < old_names.len() && old_names[q] == u;
                        assert(vec_views(names@).contains(old_names[q]));
                    }
                }
            }
        }
        i += 1;
    }
    proof {
        assert(dv.take(details.len() as int) =~= dv);
    }
}

fn compare_members(
    expected: &PlaylistPackage,
    actual: &PlaylistPackage,
    issues: &mut Vec<PlaylistPackageIssue>,
    presentation: bool,
)
    ensures
        issue_views(final(issues)@) == issue_views(old(issues)@) + member_issues(
            member_listing(expected.entries(), actual.entries(), presentation),
            expected.entries(),
            actual.entries(),
            presentation,
        ),
{
    let ed = expected.embedded_file_details();
    let ad = actual.embedded_file_details();
    let mut names: Vec<Vec<char>> = Vec::new();
    proof {
        assert(vec_views(names@) =~= Seq::<Seq<char>>::empty());
    }
    collect_names(&ed, presentation, &mut names);
    collect_names(&ad, presentation, &mut names);
    let ghost nv = vec_views(names@);
    proof {
        assert(is_member_listing(nv, expected.entries(), actual.entries(), presentation));
        let c = member_listing(expected.entries(), actual.entries(), presentation);
        assert(is_member_listing(c, expected.entries(), actual.entries(), presentation));
        lemma_strictly_ascending_unique(nv, c);
    }
    let ghost start = issue_views(issues@);
    let mut i: usize = 0;
    proof {
        assert(nv.take(0) =~= Seq::<Seq<char>>::empty());
    }
    while i < names.len()
        invariant
            i <= names.len(),
            nv == vec_views(names@),
            issue_views(issues@) == start + member_issues(nv.take(i as int), expected.entries(), actual.entries(), presentation),
            ed@.map_values(|e: &PackageFileSummary| *e) == embedded_entries(expected.entries()),
            ad@.map_values(|e: &PackageFileSummary| *e) == embedded_entries(actual.entries()),
        decreases names.len() - i,
    {
        let ef = sort_fps(fps_exec(&ed, &names[i], presentation));
        let af = sort_fps(fps_exec(&ad, &names[i], presentation));
        let ghost before = issue_views(issues@);
        push_member_issue(issues, &names[i], &ef, &af, presentation);
        proof {
            let t = nv.take(i + 1);
            assert(t.drop_last() =~= nv.take(i as int));
            assert(t.last() == names@[i as int]@);
        }
        i += 1;
    }
    proof {
        assert(nv.take(names.len() as int) =~= nv);
    }
}

/// Compare the embedded presentations of two packages by path: each
/// path's sorted fingerprints must agree; count differences, fingerprint
/// differences, missing and extra paths are reported in path order.
pub fn compare_embedded_presentations(
    expected: &PlaylistPackage,
    actual: &PlaylistPackage,
    issues: &mut Vec<PlaylistPackageIssue>,
)
    ensures
        issue_views(final(issues)@) == issue_views(old(issues)@) + member_issues(
            member_listing(expected.entries(), actual.entries(), true),
            expected.entries(),
            actual.entries(),
            true,
        ),
{
    compare_members(expected, actual, issues, true);
}

/// Compare the media members of two packages by path, as
/// [`compare_embedded_presentations`] does for presentations.
pub fn compare_media_assets(
    expected: &PlaylistPackage,
    actual: &PlaylistPackage,
    issues: &mut Vec<PlaylistPackageIssue>,
)
    ensures
        issue_views(final(issues)@) == issue_views(old(issues)@) + member_issues(
            member_listing(expected.entries(), actual.entries(), false),
            expected.entries(),
            actual.entries(),
            false,
        ),
{
    compare_members(expected, actual, issues, false);
}

/// Law: comparing media members path by path, a path present in both
/// packages adds exactly one issue, of kind
/// `media_asset_fingerprint_mismatch`, when its sorted fingerprints differ
/// (in content, not only in count), and no issue when they are equal; a
/// path on one side only adds one missing or extra issue.
pub proof fn law_media_issue_iff_fingerprints_differ(
    names: Seq<Seq<char>>,
    n: Seq<char>,
    e: Seq<PackageFileSummary>,
    a: Seq<PackageFileSummary>,
)
    ensures
        ({
            let ef = member_fingerprints(e, n, false);
            let af = member_fingerprints(a, n, false);
            let before = member_issues(names, e, a, false);
            let after = member_issues(names.push(n), e, a, false);
            &&& after.len() >= before.len()
            &&& after.subrange(0, before.len() as int) == before
            &&& (ef.len() > 0 && af.len() > 0 && ef == af) ==> after == before
            &&& (ef.len() > 0 && af.len() > 0 && ef != af) ==> after.len() == before.len() + 1
                && after.last().0 == "media_asset_fingerprint_mismatch"@ && after.last().1 is None
            &&& (ef.len() > 0 && af.len() == 0) ==> after.len() == before.len() + 1
                && after.last().0 == "missing_media_asset"@
            &&& (ef.len() == 0 && af.len() > 0) ==> after.len() == before.len() + 1
                && after.last().0 == "extra_media_asset"@
            &&& (ef.len() == 0 && af.len() == 0) ==> after == before
        }),
{
    let ef = member_fingerprints(e, n, false);
    let af = member_fingerprints(a, n, false);
    let before = member_issues(names, e, a, false);
    let after = member_issues(names.push(n), e, a, false);
    assert(names.push(n).drop_last() =~= names);
    assert(names.push(n).last() == n);
    let x = media_member_issue(n, ef, af);
    assert(after == before + x);
    assert(after.subrange(0, before.len() as int) =~= before);
    if ef.len() > 0 && af.len() > 0 && ef == af {
        assert(after =~= before);
    }
    if ef.len() == 0 && af.len() == 0 {
        assert(after =~= before);
    }
}

} // verus!

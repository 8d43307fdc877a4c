//! Normalized comparison of two playlist packages: issues found position
//! by position in their presentation items.
use vstd::prelude::*;
use crate::package::{
    clone_opt_string, debug_option, lowered_arrangement, normalize_absolute_path_value,
    normalized_absolute_path, push_debug_option, same_lowered_arrangement, PlaylistItemSummary,
};
use crate::package_model::{
    entry_names, infer_archive_shape, shape_of, PackageFileSummary, PlaylistArchiveShape,
    PlaylistPackage,
};
use crate::presentation_graph::{insert_ascending, lemma_strictly_ascending_unique, strictly_ascending};
use crate::text::{vec_views,
    ascii_lower, chars_eq, chars_eq_ignore_ascii_case, chars_of, debug_quoted, decimal,
    eq_ignore_ascii_case, opt_view, push_decimal, push_signed_decimal, push_str, signed_decimal,
    str_debug, str_eq, string_of,
};

verus! {

/// A single normalized playlist package comparison issue.
#[derive(Debug, PartialEq, Eq)]
pub struct PlaylistPackageIssue {
    /// Stable issue kind.
    pub kind: String,
    /// Item index for item-level differences.
    pub index: Option<usize>,
    /// Human-readable details.
    pub message: String,
}

/// An issue as plain values: kind, index, message.
impl View for PlaylistPackageIssue {
    type V = (Seq<char>, Option<usize>, Seq<char>);

    open spec fn view(&self) -> Self::V {
        (self.kind@, self.index, self.message@)
    }
}

/// The views of a run of issues.
pub open spec fn issue_views(v: Seq<PlaylistPackageIssue>) -> Seq<(Seq<char>, Option<usize>, Seq<char>)> {
    v.map_values(|i: PlaylistPackageIssue| i@)
}

/// An issue at item `index`.
pub open spec fn item_issue(kind: Seq<char>, index: int, message: Seq<char>) -> (
    Seq<char>,
    Option<usize>,
    Seq<char>,
) {
    (kind, Some(index as usize), message)
}

/// The issue when `c` holds, else nothing.
pub open spec fn issue_if(c: bool, i: (Seq<char>, Option<usize>, Seq<char>)) -> Seq<
    (Seq<char>, Option<usize>, Seq<char>),
> {
    if c {
        seq![i]
    } else {
        seq![]
    }
}

// ---------------------------------------------------------------------------
// Debug renderings
// ---------------------------------------------------------------------------

/// std `Display` of a `bool`.
pub open spec fn bool_text(b: bool) -> Seq<char> {
    if b {
        "true"@
    } else {
        "false"@
    }
}

/// std `Debug` of an optional `i32`.
pub open spec fn debug_i32_option(o: Option<i32>) -> Seq<char> {
    match o {
        Some(v) => "Some("@ + signed_decimal(v as int) + ")"@,
        None => "None"@,
    }
}

/// std `Debug` of an optional pair of `i32`.
pub open spec fn debug_pair_option(o: Option<(i32, i32)>) -> Seq<char> {
    match o {
        Some(p) => "Some(("@ + signed_decimal(p.0 as int) + ", "@ + signed_decimal(p.1 as int) + "))"@,
        None => "None"@,
    }
}

/// The `Debug` renderings of the first `n` strings, separated by `, `.
pub open spec fn debug_items(v: Seq<String>, n: int) -> Seq<char>
    decreases n,
{
    if n <= 0 {
        seq![]
    } else if n == 1 {
        debug_quoted(v[0]@)
    } else {
        debug_items(v, n - 1) + ", "@ + debug_quoted(v[n - 1]@)
    }
}

/// std `Debug` of a list of strings.
pub open spec fn debug_string_list(v: Seq<String>) -> Seq<char> {
    "["@ + debug_items(v, v.len() as int) + "]"@
}

/// The tags with ASCII letters folded to lower case.
pub open spec fn lower_tags(v: Seq<String>) -> Seq<Seq<char>> {
    v.map_values(|s: String| s@.map_values(|c: char| ascii_lower(c)))
}

/// The normalized absolute path of an optional URL string.
pub open spec fn normalized_absolute(o: Option<String>) -> Option<Seq<char>> {
    match o {
        Some(s) => Some(normalized_absolute_path(s@)),
        None => None,
    }
}

// ---------------------------------------------------------------------------
// Item issues
// ---------------------------------------------------------------------------

/// Identity issues of the items at `i`: UUID presence, name, tags
/// (ASCII case-insensitively), hidden flag.
#[verifier::opaque]
pub open spec fn identity_issues(i: int, e: PlaylistItemSummary, a: PlaylistItemSummary) -> Seq<
    (Seq<char>, Option<usize>, Seq<char>),
> {
    issue_if(
        e.item_uuid.is_some() != a.item_uuid.is_some(),
        item_issue(
            "item_uuid_presence_mismatch"@,
            i,
            "expected UUID presence "@ + bool_text(e.item_uuid.is_some()) + ", found "@ + bool_text(
                a.item_uuid.is_some(),
            ),
        ),
    ) + issue_if(
        e.name@ != a.name@,
        item_issue("item_name_mismatch"@, i, "expected '"@ + e.name@ + "', found '"@ + a.name@ + "'"@),
    ) + issue_if(
        lower_tags(e.item_tags@) != lower_tags(a.item_tags@),
        item_issue(
            "item_tags_mismatch"@,
            i,
            "expected item tags "@ + debug_string_list(e.item_tags@) + ", found "@ + debug_string_list(
                a.item_tags@,
            ),
        ),
    ) + issue_if(
        e.is_hidden != a.is_hidden,
        item_issue(
            "item_hidden_mismatch"@,
            i,
            "expected hidden="@ + bool_text(e.is_hidden) + ", found hidden="@ + bool_text(a.is_hidden),
        ),
    )
}

/// Path issues of the items at `i`: platform, local, storage and external
/// paths, local root, and the absolute URL after normalization.
#[verifier::opaque]
pub open spec fn path_issues(i: int, e: PlaylistItemSummary, a: PlaylistItemSummary) -> Seq<
    (Seq<char>, Option<usize>, Seq<char>),
> {
    issue_if(
        e.document_platform != a.document_platform,
        item_issue(
            "item_document_platform_mismatch"@,
            i,
            "expected document platform "@ + debug_i32_option(e.document_platform) + ", found "@
                + debug_i32_option(a.document_platform),
        ),
    ) + issue_if(
        opt_view(e.local_relative_path) != opt_view(a.local_relative_path),
        item_issue(
            "item_relative_path_mismatch"@,
            i,
            "expected "@ + debug_option(e.local_relative_path) + ", found "@ + debug_option(
                a.local_relative_path,
            ),
        ),
    ) + issue_if(
        opt_view(e.storage_relative_path) != opt_view(a.storage_relative_path),
        item_issue(
            "item_storage_relative_path_mismatch"@,
            i,
            "expected "@ + debug_option(e.storage_relative_path) + ", found "@ + debug_option(
                a.storage_relative_path,
            ),
        ),
    ) + issue_if(
        e.local_root != a.local_root,
        item_issue(
            "item_local_root_mismatch"@,
            i,
            "expected local root "@ + debug_i32_option(e.local_root) + ", found "@ + debug_i32_option(
                a.local_root,
            ),
        ),
    ) + issue_if(
        opt_view(e.external_relative_path) != opt_view(a.external_relative_path),
        item_issue(
            "item_external_relative_path_mismatch"@,
            i,
            "expected external path "@ + debug_option(e.external_relative_path) + ", found "@
                + debug_option(a.external_relative_path),
        ),
    ) + issue_if(
        normalized_absolute(e.absolute_string) != normalized_absolute(a.absolute_string),
        item_issue(
            "item_absolute_path_mismatch"@,
            i,
            "expected "@ + debug_option(e.absolute_string) + ", found "@ + debug_option(
                a.absolute_string,
            ),
        ),
    )
}

/// Presentation-option issues of the items at `i`: arrangement identity
/// (case-insensitively), content destination, music key, arrangement name.
#[verifier::opaque]
pub open spec fn option_issues(i: int, e: PlaylistItemSummary, a: PlaylistItemSummary) -> Seq<
    (Seq<char>, Option<usize>, Seq<char>),
> {
    issue_if(
        lowered_arrangement(e) != lowered_arrangement(a),
        item_issue(
            "item_arrangement_mismatch"@,
            i,
            "expected arrangement "@ + debug_option(e.arrangement_uuid) + ", found "@ + debug_option(
                a.arrangement_uuid,
            ),
        ),
    ) + issue_if(
        e.content_destination != a.content_destination,
        item_issue(
            "item_content_destination_mismatch"@,
            i,
            "expected content destination "@ + signed_decimal(e.content_destination as int)
                + ", found "@ + signed_decimal(a.content_destination as int),
        ),
    ) + issue_if(
        e.user_music_key != a.user_music_key,
        item_issue(
            "item_music_key_mismatch"@,
            i,
            "expected music key "@ + debug_pair_option(e.user_music_key) + ", found "@
                + debug_pair_option(a.user_music_key),
        ),
    ) + issue_if(
        e.arrangement_name@ != a.arrangement_name@,
        item_issue(
            "item_arrangement_name_mismatch"@,
            i,
            "expected arrangement name "@ + debug_quoted(e.arrangement_name@) + ", found "@
                + debug_quoted(a.arrangement_name@),
        ),
    )
}

/// Every issue of the items at position `i`.
pub open spec fn pair_issues(i: int, e: PlaylistItemSummary, a: PlaylistItemSummary) -> Seq<
    (Seq<char>, Option<usize>, Seq<char>),
> {
    identity_issues(i, e, a) + path_issues(i, e, a) + option_issues(i, e, a)
}

/// The issues of positions below `n`.
pub open spec fn positional_issues(
    expected: Seq<PlaylistItemSummary>,
    actual: Seq<PlaylistItemSummary>,
    n: int,
) -> Seq<(Seq<char>, Option<usize>, Seq<char>)>
    decreases n,
{
    if n <= 0 {
        seq![]
    } else {
        let i = n - 1;
        positional_issues(expected, actual, i) + if i < expected.len() && i < actual.len() {
            pair_issues(i, expected[i], actual[i])
        } else if i < expected.len() {
            seq![item_issue("missing_item"@, i, "missing item '"@ + expected[i].name@ + "'"@)]
        } else if i < actual.len() {
            seq![item_issue("extra_item"@, i, "extra item '"@ + actual[i].name@ + "'"@)]
        } else {
            seq![]
        }
    }
}

/// Every positional item issue: the item counts, then each position.
pub open spec fn item_comparison_issues(
    expected: Seq<PlaylistItemSummary>,
    actual: Seq<PlaylistItemSummary>,
) -> Seq<(Seq<char>, Option<usize>, Seq<char>)> {
    let n = if expected.len() >= actual.len() {
        expected.len()
    } else {
        actual.len()
    };
    issue_if(
        expected.len() != actual.len(),
        (
            "item_count_mismatch"@,
            None,
            "expected "@ + decimal(expected.len()) + " items, found "@ + decimal(actual.len()),
        ),
    ) + positional_issues(expected, actual, n as int)
}

// ---------------------------------------------------------------------------
// Executable comparison
// ---------------------------------------------------------------------------

fn push_issue(issues: &mut Vec<PlaylistPackageIssue>, kind: &str, index: Option<usize>, message: Vec<char>)
    ensures
        issue_views(final(issues)@) == issue_views(old(issues)@).push((kind@, index, message@)),
{
    let ghost before = issues@;
    issues.push(PlaylistPackageIssue { kind: kind.to_string(), index, message: string_of(message.as_slice()) });
    proof {
        assert(issue_views(issues@) =~= issue_views(before).push((kind@, index, message@)));
    }
}

fn push_bool(out: &mut Vec<char>, b: bool)
    ensures
        final(out)@ == old(out)@ + bool_text(b),
{
    if b {
        push_str(out, "true");
    } else {
        push_str(out, "false");
    }
}

fn push_debug_i32_option(out: &mut Vec<char>, o: Option<i32>)
    ensures
        final(out)@ == old(out)@ + debug_i32_option(o),
{
    match o {
        Some(v) => {
            push_str(out, "Some(");
            push_signed_decimal(out, v as i64);
            push_str(out, ")");
        },
        None => push_str(out, "None"),
    }
}

fn push_debug_pair_option(out: &mut Vec<char>, o: Option<(i32, i32)>)
    ensures
        final(out)@ == old(out)@ + debug_pair_option(o),
{
    match o {
        Some(p) => {
            push_str(out, "Some((");
            push_signed_decimal(out, p.0 as i64);
            push_str(out, ", ");
            push_signed_decimal(out, p.1 as i64);
            push_str(out, "))");
        },
        None => push_str(out, "None"),
    }
}

fn push_debug_string_list(out: &mut Vec<char>, v: &Vec<String>)
    ensures
        final(out)@ == old(out)@ + debug_string_list(v@),
{
    let ghost start = out@;
    push_str(out, "[");
    let mut k: usize = 0;
    while k < v.len()
        invariant
            k <= v.len(),
            out@ == start + "["@ + debug_items(v@, k as int),
        decreases v.len() - k,
    {
        if k > 0 {
            push_str(out, ", ");
        }
        let q = str_debug(v[k].as_str());
        push_str(out, q.as_str());
        proof {
            if k == 0 {
                assert(debug_items(v@, 1) == debug_quoted(v@[0]@));
            }
        }
        k += 1;
    }
    push_str(out, "]");
}

proof fn lemma_lower_eq(a: Seq<char>, b: Seq<char>)
    ensures
        eq_ignore_ascii_case(a, b) == (a.map_values(|c: char| ascii_lower(c)) == b.map_values(
            |c: char| ascii_lower(c),
        )),
{
    let la = a.map_values(|c: char| ascii_lower(c));
    let lb = b.map_values(|c: char| ascii_lower(c));
    if eq_ignore_ascii_case(a, b) {
        assert(la =~= lb);
    }
    if la == lb {
        assert(la.len() == a.len() && lb.len() == b.len());
        assert forall|i: int| 0 <= i < a.len() implies #[trigger] ascii_lower(a[i]) == ascii_lower(b[i]) by {
            assert(la[i] == ascii_lower(a[i]));
            assert(lb[i] == ascii_lower(b[i]));
        }
        assert(eq_ignore_ascii_case(a, b));
    }
}

fn same_tags(a: &Vec<String>, b: &Vec<String>) -> (r: bool)
    ensures
        r == (lower_tags(a@) == lower_tags(b@)),
{
    if a.len() != b.len() {
        proof {
            assert(lower_tags(a@).len() != lower_tags(b@).len());
        }
        return false;
    }
    let mut k: usize = 0;
    while k < a.len()
        invariant
            k <= a.len() == b.len(),
            forall|q: int| 0 <= q < k ==> #[trigger] lower_tags(a@)[q] == lower_tags(b@)[q],
        decreases a.len() - k,
    {
        let x = chars_of(a[k].as_str());
        let y = chars_of(b[k].as_str());
        let same = chars_eq_ignore_ascii_case(x.as_slice(), y.as_slice());
        proof {
            lemma_lower_eq(a@[k as int]@, b@[k as int]@);
        }
        if !same {
            proof {
                assert(lower_tags(a@)[k as int] != lower_tags(b@)[k as int]);
            }
            return false;
        }
        k += 1;
    }
    proof {
        assert(lower_tags(a@) =~= lower_tags(b@));
    }
    true
}

fn same_opt_string(a: &Option<String>, b: &Option<String>) -> (r: bool)
    ensures
        r == (opt_view(*a) == opt_view(*b)),
{
    match (a, b) {
        (Some(x), Some(y)) => str_eq(x.as_str(), y.as_str()),
        (None, None) => true,
        _ => false,
    }
}

fn same_normalized_absolute(a: &Option<String>, b: &Option<String>) -> (r: bool)
    ensures
        r == (normalized_absolute(*a) == normalized_absolute(*b)),
{
    match (a, b) {
        (Some(x), Some(y)) => {
            let nx = normalize_absolute_path_value(x.as_str());
            let ny = normalize_absolute_path_value(y.as_str());
            str_eq(nx.as_str(), ny.as_str())
        },
        (None, None) => true,
        _ => false,
    }
}

fn debug_pair_message(prefix: &str, e: &Option<String>, a: &Option<String>) -> (m: Vec<char>)
    ensures
        m@ == prefix@ + debug_option(*e) + ", found "@ + debug_option(*a),
{
    let mut m: Vec<char> = Vec::new();
    push_str(&mut m, prefix);
    push_debug_option(&mut m, e);
    push_str(&mut m, ", found ");
    push_debug_option(&mut m, a);
    m
}

fn compare_item_identity(
    index: usize,
    e: &PlaylistItemSummary,
    a: &PlaylistItemSummary,
    issues: &mut Vec<PlaylistPackageIssue>,
)
    ensures
        issue_views(final(issues)@) == issue_views(old(issues)@) + identity_issues(index as int, *e, *a),
{
    let ghost start = issue_views(issues@);
    if e.item_uuid.is_some() != a.item_uuid.is_some() {
        let mut m: Vec<char> = Vec::new();
        push_str(&mut m, "expected UUID presence ");
        push_bool(&mut m, e.item_uuid.is_some());
        push_str(&mut m, ", found ");
        push_bool(&mut m, a.item_uuid.is_some());
        push_issue(issues, "item_uuid_presence_mismatch", Some(index), m);
    }
    let ghost s1 = issue_views(issues@);
    if !str_eq(e.name.as_str(), a.name.as_str()) {
        let mut m: Vec<char> = Vec::new();
        push_str(&mut m, "expected '");
        push_str(&mut m, e.name.as_str());
        push_str(&mut m, "', found '");
        push_str(&mut m, a.name.as_str());
        push_str(&mut m, "'");
        push_issue(issues, "item_name_mismatch", Some(index), m);
    }
    let ghost s2 = issue_views(issues@);
    if !same_tags(&e.item_tags, &a.item_tags) {
        let mut m: Vec<char> = Vec::new();
        push_str(&mut m, "expected item tags ");
        push_debug_string_list(&mut m, &e.item_tags);
        push_str(&mut m, ", found ");
        push_debug_string_list(&mut m, &a.item_tags);
        push_issue(issues, "item_tags_mismatch", Some(index), m);
    }
    let ghost s3 = issue_views(issues@);
    if e.is_hidden != a.is_hidden {
        let mut m: Vec<char> = Vec::new();
        push_str(&mut m, "expected hidden=");
        push_bool(&mut m, e.is_hidden);
        push_str(&mut m, ", found hidden=");
        push_bool(&mut m, a.is_hidden);
        push_issue(issues, "item_hidden_mismatch", Some(index), m);
    }
    proof {
        reveal(identity_issues);
        let i = index as int;
        assert(s1 =~= start + issue_if(
            e.item_uuid.is_some() != a.item_uuid.is_some(),
            item_issue(
                "item_uuid_presence_mismatch"@,
                i,
                "expected UUID presence "@ + bool_text(e.item_uuid.is_some()) + ", found "@ + bool_text(
                    a.item_uuid.is_some(),
                ),
            ),
        ));
        assert(issue_views(issues@) =~= start + identity_issues(i, *e, *a));
    }
}

fn compare_item_paths(
    index: usize,
    e: &PlaylistItemSummary,
    a: &PlaylistItemSummary,
    issues: &mut Vec<PlaylistPackageIssue>,
)
    ensures
        issue_views(final(issues)@) == issue_views(old(issues)@) + path_issues(index as int, *e, *a),
{
    let ghost start = issue_views(issues@);
    if e.document_platform != a.document_platform {
        let mut m: Vec<char> = Vec::new();
        push_str(&mut m, "expected document platform ");
        push_debug_i32_option(&mut m, e.document_platform);
        push_str(&mut m, ", found ");
        push_debug_i32_option(&mut m, a.document_platform);
        push_issue(issues, "item_document_platform_mismatch", Some(index), m);
    }
    let ghost s1 = issue_views(issues@);
    if !same_opt_string(&e.local_relative_path, &a.local_relative_path) {
        let m = debug_pair_message("expected ", &e.local_relative_path, &a.local_relative_path);
        push_issue(issues, "item_relative_path_mismatch", Some(index), m);
    }
    let ghost s2 = issue_views(issues@);
    if !same_opt_string(&e.storage_relative_path, &a.storage_relative_path) {
        let m = debug_pair_message("expected ", &e.storage_relative_path, &a.storage_relative_path);
        push_issue(issues, "item_storage_relative_path_mismatch", Some(index), m);
    }
    let ghost s3 = issue_views(issues@);
    if e.local_root != a.local_root {
        let mut m: Vec<char> = Vec::new();
        push_str(&mut m, "expected local root ");
        push_debug_i32_option(&mut m, e.local_root);
        push_str(&mut m, ", found ");
        push_debug_i32_option(&mut m, a.local_root);
        push_issue(issues, "item_local_root_mismatch", Some(index), m);
    }
    let ghost s4 = issue_views(issues@);
    if !same_opt_string(&e.external_relative_path, &a.external_relative_path) {
        let m = debug_pair_message(
            "expected external path ",
            &e.external_relative_path,
            &a.external_relative_path,
        );
        push_issue(issues, "item_external_relative_path_mismatch", Some(index), m);
    }
    let ghost s5 = issue_views(issues@);
    if !same_normalized_absolute(&e.absolute_string, &a.absolute_string) {
        let m = debug_pair_message("expected ", &e.absolute_string, &a.absolute_string);
        push_issue(issues, "item_absolute_path_mismatch", Some(index), m);
    }
    proof {
        reveal(path_issues);
        assert(issue_views(issues@) =~= start + path_issues(index as int, *e, *a));
    }
}

fn compare_item_presentation_options(
    index: usize,
    e: &PlaylistItemSummary,
    a: &PlaylistItemSummary,
    issues: &mut Vec<PlaylistPackageIssue>,
)
    ensures
        issue_views(final(issues)@) == issue_views(old(issues)@) + option_issues(index as int, *e, *a),
{
    let ghost start = issue_views(issues@);
    if !same_lowered_arrangement(e, a) {
        let m = debug_pair_message("expected arrangement ", &e.arrangement_uuid, &a.arrangement_uuid);
        push_issue(issues, "item_arrangement_mismatch", Some(index), m);
    }
    let ghost s1 = issue_views(issues@);
    if e.content_destination != a.content_destination {
        let mut m: Vec<char> = Vec::new();
        push_str(&mut m, "expected content destination ");
        push_signed_decimal(&mut m, e.content_destination as i64);
        push_str(&mut m, ", found ");
        push_signed_decimal(&mut m, a.content_destination as i64);
        push_issue(issues, "item_content_destination_mismatch", Some(index), m);
    }
    let ghost s2 = issue_views(issues@);
    let same_key = match (e.user_music_key, a.user_music_key) {
        (Some(x), Some(y)) => x.0 == y.0 && x.1 == y.1,
        (None, None) => true,
        _ => false,
    };
    if !same_key {
        let mut m: Vec<char> = Vec::new();
        push_str(&mut m, "expected music key ");
        push_debug_pair_option(&mut m, e.user_music_key);
        push_str(&mut m, ", found ");
        push_debug_pair_option(&mut m, a.user_music_key);
        push_issue(issues, "item_music_key_mismatch", Some(index), m);
    }
    let ghost s3 = issue_views(issues@);
    if !str_eq(e.arrangement_name.as_str(), a.arrangement_name.as_str()) {
        let mut m: Vec<char> = Vec::new();
        push_str(&mut m, "expected arrangement name ");
        let qe = str_debug(e.arrangement_name.as_str());
        push_str(&mut m, qe.as_str());
        push_str(&mut m, ", found ");
        let qa = str_debug(a.arrangement_name.as_str());
        push_str(&mut m, qa.as_str());
        push_issue(issues, "item_arrangement_name_mismatch", Some(index), m);
    }
    proof {
        reveal(option_issues);
        assert(issue_views(issues@) =~= start + option_issues(index as int, *e, *a));
    }
}

/// Compares playlist items position by position, appending every issue:
/// the item counts, then for each position either the differences of the
/// two items or the missing or extra item.
pub fn compare_items(
    expected: &[PlaylistItemSummary],
    actual: &[PlaylistItemSummary],
    issues: &mut Vec<PlaylistPackageIssue>,
)
    ensures
        issue_views(final(issues)@) == issue_views(old(issues)@) + item_comparison_issues(
            expected@,
            actual@,
        ),
{
    let ghost start = issue_views(issues@);
    if expected.len() != actual.len() {
        let mut m: Vec<char> = Vec::new();
        push_str(&mut m, "expected ");
        push_decimal(&mut m, expected.len() as u64);
        push_str(&mut m, " items, found ");
        push_decimal(&mut m, actual.len() as u64);
        push_issue(issues, "item_count_mismatch", None, m);
    }
    let ghost head = issue_views(issues@);
    proof {
        assert(head =~= start + issue_if(
            expected.len() != actual.len(),
            (
                "item_count_mismatch"@,
                None,
                "expected "@ + decimal(expected@.len()) + " items, found "@ + decimal(actual@.len()),
            ),
        ));
    }
    let n = if expected.len() >= actual.len() {
        expected.len()
    } else {
        actual.len()
    };
    let mut index: usize = 0;
    while index < n
        invariant
            index <= n,
            n == if expected.len() >= actual.len() {
                expected.len()
            } else {
                actual.len()
            },
            issue_views(issues@) == head + positional_issues(expected@, actual@, index as int),
        decreases n - index,
    {
        let ghost before = issue_views(issues@);
        if index < expected.len() && index < actual.len() {
            compare_item_identity(index, &expected[index], &actual[index], issues);
            compare_item_paths(index, &expected[index], &actual[index], issues);
            compare_item_presentation_options(index, &expected[index], &actual[index], issues);
        } else if index < expected.len() {
            let mut m: Vec<char> = Vec::new();
            push_str(&mut m, "missing item '");
            push_str(&mut m, expected[index].name.as_str());
            push_str(&mut m, "'");
            push_issue(issues, "missing_item", Some(index), m);
        } else {
            let mut m: Vec<char> = Vec::new();
            push_str(&mut m, "extra item '");
            push_str(&mut m, actual[index].name.as_str());
            push_str(&mut m, "'");
            push_issue(issues, "extra_item", Some(index), m);
        }
        proof {
            assert(issue_views(issues@) =~= head + positional_issues(expected@, actual@, index + 1));
        }
        index += 1;
    }
}


// ---------------------------------------------------------------------------
// Archive shape
// ---------------------------------------------------------------------------

/// std `Debug` of an archive shape.
pub open spec fn shape_text(s: PlaylistArchiveShape) -> Seq<char> {
    match s {
        PlaylistArchiveShape::PresentationsOnly => "PresentationsOnly"@,
        PlaylistArchiveShape::ContainsMedia => "ContainsMedia"@,
    }
}

/// The issue when the inferred shapes of two packages differ.
pub open spec fn shape_issues(expected: Seq<PackageFileSummary>, actual: Seq<PackageFileSummary>) -> Seq<
    (Seq<char>, Option<usize>, Seq<char>),
> {
    let e = shape_of(expected);
    let a = shape_of(actual);
    issue_if(
        e != a,
        ("archive_shape_mismatch"@, None, "expected "@ + shape_text(e) + ", found "@ + shape_text(a)),
    )
}

fn push_shape(out: &mut Vec<char>, s: PlaylistArchiveShape)
    ensures
        final(out)@ == old(out)@ + shape_text(s),
{
    match s {
        PlaylistArchiveShape::PresentationsOnly => push_str(out, "PresentationsOnly"),
        PlaylistArchiveShape::ContainsMedia => push_str(out, "ContainsMedia"),
    }
}

/// Reports when the two packages have different inferred shapes.
pub fn compare_inferred_archive_shapes(
    expected: &PlaylistPackage,
    actual: &PlaylistPackage,
    issues: &mut Vec<PlaylistPackageIssue>,
)
    ensures
        issue_views(final(issues)@) == issue_views(old(issues)@) + shape_issues(
            expected.entries(),
            actual.entries(),
        ),
{
    let e = infer_archive_shape(expected);
    let a = infer_archive_shape(actual);
    let ghost start = issue_views(issues@);
    if e != a {
        let mut m: Vec<char> = Vec::new();
        push_str(&mut m, "expected ");
        push_shape(&mut m, e);
        push_str(&mut m, ", found ");
        push_shape(&mut m, a);
        push_issue(issues, "archive_shape_mismatch", None, m);
    }
    proof {
        assert(issue_views(issues@) =~= start + shape_issues(expected.entries(), actual.entries()));
    }
}

/// The `Debug` renderings of the first `n` texts, separated by `, `.
pub open spec fn debug_text_items(v: Seq<Seq<char>>, n: int) -> Seq<char>
    decreases n,
{
    if n <= 0 {
        seq![]
    } else if n == 1 {
        debug_quoted(v[0])
    } else {
        debug_text_items(v, n - 1) + ", "@ + debug_quoted(v[n - 1])
    }
}

/// std `Debug` of a list of texts.
pub open spec fn debug_text_list(v: Seq<Seq<char>>) -> Seq<char> {
    "["@ + debug_text_items(v, v.len() as int) + "]"@
}

/// The decimal renderings of the first `n` numbers, separated by `, `.
pub open spec fn decimal_items(v: Seq<u16>, n: int) -> Seq<char>
    decreases n,
{
    if n <= 0 {
        seq![]
    } else if n == 1 {
        decimal(v[0] as nat)
    } else {
        decimal_items(v, n - 1) + ", "@ + decimal(v[n - 1] as nat)
    }
}

/// std `Debug` of an optional `u32`.
pub open spec fn debug_u32_option(o: Option<u32>) -> Seq<char> {
    match o {
        Some(v) => "Some("@ + decimal(v as nat) + ")"@,
        None => "None"@,
    }
}

/// The contract-relevant metadata of a member, as std `Debug` prints the
/// tuple `(compression, directory, creator version, unix mode, extra-field
/// identifiers, comment)`.
pub open spec fn metadata_text(e: PackageFileSummary) -> Seq<char> {
    "("@ + debug_quoted(e.compression_method@) + ", "@ + bool_text(e.is_directory) + ", ("@ + decimal(
        e.version_made_by.0 as nat,
    ) + ", "@ + decimal(e.version_made_by.1 as nat) + "), "@ + debug_u32_option(e.unix_mode) + ", ["@
        + decimal_items(e.extra_field_ids@, e.extra_field_ids@.len() as int) + "], "@ + debug_quoted(
        e.comment@,
    ) + ")"@
}

/// Whether two members agree on their contract-relevant metadata.
pub open spec fn same_metadata(e: PackageFileSummary, a: PackageFileSummary) -> bool {
    &&& e.compression_method@ == a.compression_method@
    &&& e.is_directory == a.is_directory
    &&& e.version_made_by == a.version_made_by
    &&& e.unix_mode == a.unix_mode
    &&& e.extra_field_ids@ == a.extra_field_ids@
    &&& e.comment@ == a.comment@
}

/// The names in `a` and not in `b`, ascending.
pub open spec fn name_difference(a: Seq<Seq<char>>, b: Seq<Seq<char>>) -> Seq<Seq<char>> {
    choose|d: Seq<Seq<char>>|
        strictly_ascending(d) && forall|u: Seq<char>| #[trigger] d.contains(u) <==> (a.contains(u) && !b.contains(u))
}

/// The metadata issues of the first `n` positions whose members have the
/// same name.
pub open spec fn metadata_issues(e: Seq<PackageFileSummary>, a: Seq<PackageFileSummary>, n: int) -> Seq<
    (Seq<char>, Option<usize>, Seq<char>),
>
    decreases n,
{
    if n <= 0 {
        seq![]
    } else {
        let i = n - 1;
        metadata_issues(e, a, i) + issue_if(
            e[i].name@ == a[i].name@ && !same_metadata(e[i], a[i]),
            item_issue(
                "archive_entry_metadata_mismatch"@,
                i,
                "archive entry "@ + debug_quoted(e[i].name@) + " metadata differs: expected "@
                    + metadata_text(e[i]) + ", found "@ + metadata_text(a[i]),
            ),
        )
    }
}

/// Every archive-shape issue of two packages: entry counts, missing and
/// extra entries (each ascending by name), entry order, per-position
/// metadata, and the archive comment.
pub open spec fn archive_issues(
    e: Seq<PackageFileSummary>,
    a: Seq<PackageFileSummary>,
    ec: Seq<u8>,
    ac: Seq<u8>,
) -> Seq<(Seq<char>, Option<usize>, Seq<char>)> {
    let en = entry_names(e);
    let an = entry_names(a);
    let n = if e.len() <= a.len() {
        e.len()
    } else {
        a.len()
    };
    issue_if(
        e.len() != a.len(),
        (
            "archive_entry_count_mismatch"@,
            None,
            "expected "@ + decimal(e.len()) + " archive entries, found "@ + decimal(a.len()),
        ),
    ) + name_difference(en, an).map_values(
        |p: Seq<char>| ("missing_archive_entry"@, None::<usize>, "missing archive entry '"@ + p + "'"@),
    ) + name_difference(an, en).map_values(
        |p: Seq<char>| ("extra_archive_entry"@, None::<usize>, "extra archive entry '"@ + p + "'"@),
    ) + issue_if(
        en != an,
        (
            "archive_entry_order_mismatch"@,
            None,
            "expected archive order "@ + debug_text_list(en) + ", found "@ + debug_text_list(an),
        ),
    ) + metadata_issues(e, a, n as int) + issue_if(
        ec != ac,
        ("archive_comment_mismatch"@, None, "ZIP archive comments differ"@),
    )
}

pub(crate) fn push_debug_text_list(out: &mut Vec<char>, v: &Vec<Vec<char>>)
    ensures
        final(out)@ == old(out)@ + debug_text_list(vec_views(v@)),
{
    let ghost start = out@;
    let ghost vv = vec_views(v@);
    push_str(out, "[");
    let mut k: usize = 0;
    while k < v.len()
        invariant
            k <= v.len(),
            vv == vec_views(v@),
            out@ == start + "["@ + debug_text_items(vv, k as int),
        decreases v.len() - k,
    {
        if k > 0 {
            push_str(out, ", ");
        }
        let q = str_debug(string_of(v[k].as_slice()).as_str());
        push_str(out, q.as_str());
        proof {
            assert(vv[k as int] == v@[k as int]@);
        }
        k += 1;
    }
    push_str(out, "]");
}

fn push_metadata(out: &mut Vec<char>, e: &PackageFileSummary)
    ensures
        final(out)@ == old(out)@ + metadata_text(*e),
{
    let ghost start = out@;
    push_str(out, "(");
    let q = str_debug(e.compression_method.as_str());
    push_str(out, q.as_str());
    push_str(out, ", ");
    push_bool(out, e.is_directory);
    push_str(out, ", (");
    push_decimal(out, e.version_made_by.0 as u64);
    push_str(out, ", ");
    push_decimal(out, e.version_made_by.1 as u64);
    push_str(out, "), ");
    match e.unix_mode {
        Some(m) => {
            push_str(out, "Some(");
            push_decimal(out, m as u64);
            push_str(out, ")");
        },
        None => push_str(out, "None"),
    }
    push_str(out, ", [");
    let ghost mid = out@;
    let mut k: usize = 0;
    while k < e.extra_field_ids.len()
        invariant
            k <= e.extra_field_ids.len(),
            out@ == mid + decimal_items(e.extra_field_ids@, k as int),
        decreases e.extra_field_ids.len() - k,
    {
        if k > 0 {
            push_str(out, ", ");
        }
        push_decimal(out, e.extra_field_ids[k] as u64);
        k += 1;
    }
    push_str(out, "], ");
    let c = str_debug(e.comment.as_str());
    push_str(out, c.as_str());
    push_str(out, ")");
    proof {
        assert(out@ =~= start + metadata_text(*e));
    }
}

fn same_metadata_exec(e: &PackageFileSummary, a: &PackageFileSummary) -> (r: bool)
    ensures
        r == same_metadata(*e, *a),
{
    if !str_eq(e.compression_method.as_str(), a.compression_method.as_str()) {
        return false;
    }
    if e.is_directory != a.is_directory || e.version_made_by.0 != a.version_made_by.0
        || e.version_made_by.1 != a.version_made_by.1 || e.unix_mode != a.unix_mode {
        return false;
    }
    if e.extra_field_ids.len() != a.extra_field_ids.len() {
        return false;
    }
    let mut k: usize = 0;
    while k < e.extra_field_ids.len()
        invariant
            k <= e.extra_field_ids.len() == a.extra_field_ids.len(),
            forall|q: int| 0 <= q < k ==> e.extra_field_ids@[q] == a.extra_field_ids@[q],
        decreases e.extra_field_ids.len() - k,
    {
        if e.extra_field_ids[k] != a.extra_field_ids[k] {
            return false;
        }
        k += 1;
    }
    proof {
        assert(e.extra_field_ids@ =~= a.extra_field_ids@);
    }
    str_eq(e.comment.as_str(), a.comment.as_str())
}

fn names_of(entries: &[PackageFileSummary]) -> (r: Vec<Vec<char>>)
    ensures
        vec_views(r@) == entry_names(entries@),
{
    let mut r: Vec<Vec<char>> = Vec::new();
    let mut k: usize = 0;
    while k < entries.len()
        invariant
            k <= entries.len(),
            vec_views(r@) == entry_names(entries@).take(k as int),
        decreases entries.len() - k,
    {
        let ghost before = r@;
        r.push(chars_of(entries[k].name.as_str()));
        proof {
            assert(vec_views(r@) =~= vec_views(before).push(entries@[k as int].name@));
            assert(entry_names(entries@).take(k + 1) =~= entry_names(entries@).take(k as int).push(
                entries@[k as int].name@,
            ));
        }
        k += 1;
    }
    proof {
        assert(entry_names(entries@).take(k as int) =~= entry_names(entries@));
    }
    r
}

fn contains_name(v: &Vec<Vec<char>>, n: &Vec<char>) -> (r: bool)
    ensures
        r == vec_views(v@).contains(n@),
{
    let ghost vv = vec_views(v@);
    let mut k: usize = 0;
    while k < v.len()
        invariant
            k <= v.len(),
            vv == vec_views(v@),
            forall|q: int| 0 <= q < k ==> #[trigger] vv[q] != n@,
        decreases v.len() - k,
    {
        if chars_eq(v[k].as_slice(), n.as_slice()) {
            proof {
                assert(vv[k as int] == n@);
            }
            return true;
        }
        k += 1;
    }
    false
}

fn difference_of(a: &Vec<Vec<char>>, b: &Vec<Vec<char>>) -> (d: Vec<Vec<char>>)
    ensures
        vec_views(d@) == name_difference(vec_views(a@), vec_views(b@)),
{
    let ghost av = vec_views(a@);
    let ghost bv = vec_views(b@);
    let mut d: Vec<Vec<char>> = Vec::new();
    let mut k: usize = 0;
    while k < a.len()
        invariant
            k <= a.len(),
            av == vec_views(a@),
            bv == vec_views(b@),
            strictly_ascending(vec_views(d@)),
            forall|u: Seq<char>|
                #[trigger] vec_views(d@).contains(u) <==> (av.take(k as int).contains(u) && !bv.contains(u)),
        decreases a.len() - k,
    {
        let x = &a[k];
        proof {
            assert(av[k as int] == x@);
            assert(av.take(k + 1) =~= av.take(k as int).push(x@));
        }
        let in_b = contains_name(b, x);
        let in_d = contains_name(&d, x);
        let ghost d_before = vec_views(d@);
        if !in_b && !in_d {
            insert_ascending(&mut d, x.clone());
        }
        proof {
            let t1 = av.take(k + 1);
            let t0 = av.take(k as int);
            assert forall|u: Seq<char>| #[trigger] t1.contains(u) <==> (t0.contains(u) || u == x@) by {
                if t1.contains(u) {
                    let i = choose|i: int| 0 <= i < t1.len() && #[trigger] t1[i] == u;
                    if i < k {
                        assert(t0[i] == u);
                    }
                }
                if t0.contains(u) {
                    let i = choose|i: int| 0 <= i < t0.len() && #[trigger] t0[i] == u;
                    assert(t1[i] == u);
                }
                if u == x@ {
                    assert(t1[k as int] == u);
                }
            }
            assert forall|u: Seq<char>|
                #[trigger] vec_views(d@).contains(u) <==> (t1.contains(u) && !bv.contains(u)) by {
                if !in_b && !in_d {
                    assert(vec_views(d@).contains(u) <==> (d_before.contains(u) || u == x@));
                } else {
                    assert(vec_views(d@) == d_before);
                }
                assert(t1.contains(u) <==> (t0.contains(u) || u == x@));
            }
        }
        k += 1;
    }
    proof {
        assert(av.take(k as int) =~= av);
        lemma_strictly_ascending_unique(vec_views(d@), name_difference(av, bv));
    }
    d
}

fn push_name_issues(
    issues: &mut Vec<PlaylistPackageIssue>,
    names: &Vec<Vec<char>>,
    kind: &str,
    prefix: &str,
)
    ensures
        issue_views(final(issues)@) == issue_views(old(issues)@) + vec_views(names@).map_values(
            |p: Seq<char>| (kind@, None::<usize>, prefix@ + p + "'"@),
        ),
{
    let ghost start = issue_views(issues@);
    let ghost all = vec_views(names@).map_values(|p: Seq<char>| (kind@, None::<usize>, prefix@ + p + "'"@));
    let mut k: usize = 0;
    while k < names.len()
        invariant
            k <= names.len(),
            all == vec_views(names@).map_values(|p: Seq<char>| (kind@, None::<usize>, prefix@ + p + "'"@)),
            issue_views(issues@) == start + all.take(k as int),
        decreases names.len() - k,
    {
        let mut m: Vec<char> = Vec::new();
        push_str(&mut m, prefix);
        crate::text::push_all(&mut m, names[k].as_slice());
        push_str(&mut m, "'");
        push_issue(issues, kind, None, m);
        proof {
            assert(vec_views(names@)[k as int] == names@[k as int]@);
            assert(all.take(k + 1) =~= all.take(k as int).push(all[k as int]));
        }
        k += 1;
    }
    proof {
        assert(all.take(k as int) =~= all);
    }
}

/// Compares the archive shape of two packages: entry counts, missing and
/// extra entries, entry order, per-position metadata of same-named
/// entries, and the archive comment.
#[verifier::spinoff_prover]
#[verifier::rlimit(40)]
pub fn compare_archive_shape(
    expected: &PlaylistPackage,
    actual: &PlaylistPackage,
    issues: &mut Vec<PlaylistPackageIssue>,
)
    ensures
        issue_views(final(issues)@) == issue_views(old(issues)@) + archive_issues(
            expected.entries(),
            actual.entries(),
            expected.comment(),
            actual.comment(),
        ),
{
    let ee = expected.archive_entries();
    let ae = actual.archive_entries();
    let ghost start = issue_views(issues@);
    if ee.len() != ae.len() {
        let mut m: Vec<char> = Vec::new();
        push_str(&mut m, "expected ");
        push_decimal(&mut m, ee.len() as u64);
        push_str(&mut m, " archive entries, found ");
        push_decimal(&mut m, ae.len() as u64);
        push_issue(issues, "archive_entry_count_mismatch", None, m);
    }
    let ghost s1 = issue_views(issues@);
    let en = names_of(ee);
    let an = names_of(ae);
    let missing = difference_of(&en, &an);
    push_name_issues(issues, &missing, "missing_archive_entry", "missing archive entry '");
    let ghost s2 = issue_views(issues@);
    let extra = difference_of(&an, &en);
    push_name_issues(issues, &extra, "extra_archive_entry", "extra archive entry '");
    let ghost s3 = issue_views(issues@);
    let mut same_order = en.len() == an.len();
    if same_order {
        let mut k: usize = 0;
        while k < en.len()
            invariant
                k <= en.len() == an.len(),
                vec_views(en@).len() == en.len(),
                vec_views(an@).len() == an.len(),
                same_order == forall|q: int| 0 <= q < k ==> #[trigger] vec_views(en@)[q] == vec_views(an@)[q],
            decreases en.len() - k,
        {
            proof {
                assert(vec_views(en@)[k as int] == en@[k as int]@);
                assert(vec_views(an@)[k as int] == an@[k as int]@);
            }
            if !chars_eq(en[k].as_slice(), an[k].as_slice()) {
                same_order = false;
            }
            k += 1;
        }
        proof {
            if same_order {
                assert(vec_views(en@) =~= vec_views(an@));
            }
        }
    }
    if !same_order {
        let mut m: Vec<char> = Vec::new();
        push_str(&mut m, "expected archive order ");
        push_debug_text_list(&mut m, &en);
        push_str(&mut m, ", found ");
        push_debug_text_list(&mut m, &an);
        push_issue(issues, "archive_entry_order_mismatch", None, m);
    }
    let ghost s4 = issue_views(issues@);
    let n = if ee.len() <= ae.len() {
        ee.len()
    } else {
        ae.len()
    };
    let mut index: usize = 0;
    while index < n
        invariant
            index <= n <= ee.len(),
            n <= ae.len(),
            issue_views(issues@) == s4 + metadata_issues(ee@, ae@, index as int),
        decreases n - index,
    {
        let e = &ee[index];
        let a = &ae[index];
        let ghost before = issue_views(issues@);
        if str_eq(e.name.as_str(), a.name.as_str()) && !same_metadata_exec(e, a) {
            let mut m: Vec<char> = Vec::new();
            push_str(&mut m, "archive entry ");
            let q = str_debug(e.name.as_str());
            push_str(&mut m, q.as_str());
            push_str(&mut m, " metadata differs: expected ");
            push_metadata(&mut m, e);
            push_str(&mut m, ", found ");
            push_metadata(&mut m, a);
            push_issue(issues, "archive_entry_metadata_mismatch", Some(index), m);
        }
        proof {
            assert(issue_views(issues@) =~= s4 + metadata_issues(ee@, ae@, index + 1));
        }
        index += 1;
    }
    let ghost s5 = issue_views(issues@);
    let ec = expected.archive_comment();
    let ac = actual.archive_comment();
    let mut same_comment = ec.len() == ac.len();
    if same_comment {
        let mut k: usize = 0;
        while k < ec.len()
            invariant
                k <= ec.len() == ac.len(),
                same_comment == forall|q: int| 0 <= q < k ==> ec@[q] == ac@[q],
            decreases ec.len() - k,
        {
            if ec[k] != ac[k] {
                same_comment = false;
            }
            k += 1;
        }
        proof {
            if same_comment {
                assert(ec@ =~= ac@);
            }
        }
    }
    if !same_comment {
        let mut m: Vec<char> = Vec::new();
        push_str(&mut m, "ZIP archive comments differ");
        push_issue(issues, "archive_comment_mismatch", None, m);
    }
    proof {
        assert(issue_views(issues@) =~= start + archive_issues(
            expected.entries(),
            actual.entries(),
            expected.comment(),
            actual.comment(),
        ));
    }
}

} // verus!

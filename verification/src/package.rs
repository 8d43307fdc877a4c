//! Playlist package inspection: item summaries and their aligned
//! comparison.
//!
//! Items are aligned by a stable identity key (their library-relative path
//! when they have one) rather than by position, so one missing item does
//! not make every later item look different.
use vstd::prelude::*;
use crate::document::{
    Playlist, PlaylistChildren, PlaylistDocument, PlaylistItem, PlaylistItemType, RelativeFilePath,
    UrlStorage,
};
use crate::percent::{lossy_decode, percent_decode_lossy};
use crate::text::{
    ascii_lower, ascii_lower_char, chars_of, chars_starts_with, find_chars, find_first,
    push_decimal, push_str, replace_char, replace_chars, str_eq, string_of, to_lowercase,
    unicode_lowercase, decimal, occurs_at, opt_view, debug_quoted, str_debug, chars_eq,
    push_all, vec_views,
};

verus! {

/// A compact view of a presentation item inside a playlist document.
#[derive(Debug, PartialEq, Eq)]
pub struct PlaylistItemSummary {
    /// Playlist item identity; volatile across writes.
    pub item_uuid: Option<String>,
    /// Display name.
    pub name: String,
    /// Tag identities, in serialized order.
    pub item_tags: Vec<String>,
    /// Whether the item is hidden.
    pub is_hidden: bool,
    /// Document URL platform value.
    pub document_platform: Option<i32>,
    /// URL absolute string, typically a `file:///` URL.
    pub absolute_string: Option<String>,
    /// URL relative path, when the storage holds one.
    pub storage_relative_path: Option<String>,
    /// Local relative path used to resolve the item.
    pub local_relative_path: Option<String>,
    /// Local relative root value.
    pub local_root: Option<i32>,
    /// External relative path.
    pub external_relative_path: Option<String>,
    /// Arrangement identity referenced by the item.
    pub arrangement_uuid: Option<String>,
    /// Content destination value.
    pub content_destination: i32,
    /// Music key and scale values.
    pub user_music_key: Option<(i32, i32)>,
    /// Serialized arrangement display name.
    pub arrangement_name: String,
}

/// Stable aligned item difference.
#[derive(Debug, PartialEq, Eq)]
pub struct PlaylistItemAlignedDiff {
    /// Stable issue kind.
    pub kind: String,
    /// Reference playlist index, when present.
    pub expected_index: Option<usize>,
    /// Candidate playlist index, when present.
    pub actual_index: Option<usize>,
    /// Alignment key, usually the library-relative path.
    pub key: String,
    /// Reference item name, when present.
    pub expected_name: Option<String>,
    /// Candidate item name, when present.
    pub actual_name: Option<String>,
    /// Human-readable details.
    pub message: String,
}

// ---------------------------------------------------------------------------
// Keys
// ---------------------------------------------------------------------------

/// Leading `./` pieces removed (std `trim_start_matches("./")`).
pub open spec fn strip_dot_slash(s: Seq<char>) -> Seq<char>
    decreases s.len(),
{
    if s.len() >= 2 && s[0] == '.' && s[1] == '/' {
        strip_dot_slash(s.skip(2))
    } else {
        s
    }
}

/// A path reduced for identity comparison: escapes decoded leniently, back
/// slashes read as slashes, leading `./` removed, ASCII case folded.
pub open spec fn item_key_text(v: Seq<char>) -> Seq<char> {
    strip_dot_slash(replace_char(lossy_decode(v), '\\', '/')).map_values(|c: char| ascii_lower(c))
}

/// The characters after the last `/`.
pub open spec fn after_last_slash(s: Seq<char>) -> Seq<char>
    decreases s.len(),
{
    if s.len() == 0 || s.last() == '/' {
        Seq::empty()
    } else {
        after_last_slash(s.drop_last()).push(s.last())
    }
}

/// An absolute presentation path reduced to what survives moving between
/// machines: the suffix from the first `Libraries/`, else the file name.
pub open spec fn normalized_absolute_path(v: Seq<char>) -> Seq<char> {
    let d = replace_char(lossy_decode(v), '\\', '/');
    match find_first(d, "Libraries/"@) {
        Some(i) => d.skip(i),
        None => after_last_slash(d),
    }
}

/// The alignment key of an item: its first locator among local, storage,
/// external and absolute paths, else its name, under a kind prefix.
pub open spec fn alignment_key(item: PlaylistItemSummary) -> Seq<char> {
    match item.local_relative_path {
        Some(p) => "path:"@ + item_key_text(p@),
        None => match item.storage_relative_path {
            Some(p) => "storage:"@ + item_key_text(p@),
            None => match item.external_relative_path {
                Some(p) => "external:"@ + item_key_text(p@),
                None => match item.absolute_string {
                    Some(p) => "absolute:"@ + item_key_text(normalized_absolute_path(p@)),
                    None => "name:"@ + item_key_text(item.name@),
                },
            },
        },
    }
}

fn strip_dot_slash_chars(s: &[char]) -> (r: Vec<char>)
    ensures
        r@ == strip_dot_slash(s@),
{
    let mut i: usize = 0;
    proof {
        assert(s@.skip(0) =~= s@);
    }
    while s.len() - i >= 2 && s[i] == '.' && s[i + 1] == '/'
        invariant
            i <= s.len(),
            strip_dot_slash(s@) == strip_dot_slash(s@.skip(i as int)),
        decreases s.len() - i,
    {
        proof {
            assert(s@.skip(i as int).skip(2) =~= s@.skip(i + 2));
        }
        i += 2;
    }
    let mut r: Vec<char> = Vec::new();
    let mut k = i;
    while k < s.len()
        invariant
            i <= k <= s.len(),
            r@ == s@.subrange(i as int, k as int),
        decreases s.len() - k,
    {
        r.push(s[k]);
        k += 1;
    }
    proof {
        assert(r@ =~= s@.skip(i as int));
    }
    r
}

fn item_key_chars(v: &str) -> (r: Vec<char>)
    ensures
        r@ == item_key_text(v@),
{
    let decoded = percent_decode_lossy(v);
    let d = chars_of(decoded.as_str());
    let slashes = replace_chars(d.as_slice(), '\\', '/');
    let stripped = strip_dot_slash_chars(slashes.as_slice());
    let mut r: Vec<char> = Vec::new();
    let mut i: usize = 0;
    while i < stripped.len()
        invariant
            i <= stripped.len(),
            r@ == stripped@.take(i as int).map_values(|c: char| ascii_lower(c)),
        decreases stripped.len() - i,
    {
        r.push(ascii_lower_char(stripped[i]));
        i += 1;
        proof {
            assert(r@ =~= stripped@.take(i as int).map_values(|c: char| ascii_lower(c)));
        }
    }
    proof {
        assert(stripped@.take(i as int) =~= stripped@);
    }
    r
}

/// Normalizes an absolute presentation path for semantic comparison.
pub fn normalize_absolute_path_value(value: &str) -> (r: String)
    ensures
        r@ == normalized_absolute_path(value@),
{
    let decoded = percent_decode_lossy(value);
    let d0 = chars_of(decoded.as_str());
    let d = replace_chars(d0.as_slice(), '\\', '/');
    let marker = chars_of("Libraries/");
    let start: usize = match find_chars(d.as_slice(), marker.as_slice()) {
        Some(i) => i,
        None => {
            let mut s = d.len();
            proof {
                assert(d@.take(s as int) =~= d@);
                assert(d@.subrange(s as int, s as int) =~= Seq::<char>::empty());
            }
            while s > 0 && d[s - 1] != '/'
                invariant
                    s <= d.len(),
                    after_last_slash(d@) == after_last_slash(d@.take(s as int)) + d@.subrange(s as int, d.len() as int),
                decreases s,
            {
                proof {
                    assert(d@.take(s as int).drop_last() =~= d@.take(s - 1));
                    assert(d@.take(s as int).last() == d@[s - 1]);
                    assert(d@.subrange(s - 1, d.len() as int) =~= seq![d@[s - 1]] + d@.subrange(s as int, d.len() as int));
                }
                s -= 1;
            }
            proof {
                assert(after_last_slash(d@.take(s as int)) =~= Seq::<char>::empty());
            }
            s
        },
    };
    let mut r: Vec<char> = Vec::new();
    let mut k = start;
    while k < d.len()
        invariant
            start <= k <= d.len(),
            r@ == d@.subrange(start as int, k as int),
        decreases d.len() - k,
    {
        r.push(d[k]);
        k += 1;
    }
    proof {
        assert(r@ =~= d@.skip(start as int));
        assert(r@ =~= d@.subrange(start as int, d.len() as int));
    }
    string_of(r.as_slice())
}

fn prefixed(prefix: &str, body: Vec<char>) -> (r: Vec<char>)
    ensures
        r@ == prefix@ + body@,
{
    let mut r = chars_of(prefix);
    crate::text::push_all(&mut r, body.as_slice());
    r
}

fn playlist_item_alignment_key(item: &PlaylistItemSummary) -> (r: Vec<char>)
    ensures
        r@ == alignment_key(*item),
{
    match &item.local_relative_path {
        Some(p) => prefixed("path:", item_key_chars(p.as_str())),
        None => match &item.storage_relative_path {
            Some(p) => prefixed("storage:", item_key_chars(p.as_str())),
            None => match &item.external_relative_path {
                Some(p) => prefixed("external:", item_key_chars(p.as_str())),
                None => match &item.absolute_string {
                    Some(p) => {
                        let n = normalize_absolute_path_value(p.as_str());
                        prefixed("absolute:", item_key_chars(n.as_str()))
                    },
                    None => prefixed("name:", item_key_chars(item.name.as_str())),
                },
            },
        },
    }
}


// ---------------------------------------------------------------------------
// Aligned comparison
// ---------------------------------------------------------------------------

/// The plain values of an aligned difference: kind, expected index, actual
/// index, key, expected name, actual name, message.
impl View for PlaylistItemAlignedDiff {
    type V = (Seq<char>, Option<usize>, Option<usize>, Seq<char>, Option<Seq<char>>, Option<Seq<char>>, Seq<char>);

    open spec fn view(&self) -> Self::V {
        (
            self.kind@,
            self.expected_index,
            self.actual_index,
            self.key@,
            opt_view(self.expected_name),
            opt_view(self.actual_name),
            self.message@,
        )
    }
}

/// The views of a run of differences.
pub open spec fn diff_views(d: Seq<PlaylistItemAlignedDiff>) -> Seq<<PlaylistItemAlignedDiff as View>::V> {
    d.map_values(|x: PlaylistItemAlignedDiff| x@)
}

/// The alignment keys of a run of items.
pub open spec fn item_keys(items: Seq<PlaylistItemSummary>) -> Seq<Seq<char>> {
    items.map_values(|it: PlaylistItemSummary| alignment_key(it))
}

/// How many of the first `n` keys equal `k`.
pub open spec fn key_count(keys: Seq<Seq<char>>, k: Seq<char>, n: int) -> nat
    decreases n,
{
    if n <= 0 {
        0
    } else {
        key_count(keys, k, n - 1) + if keys[n - 1] == k { 1nat } else { 0nat }
    }
}

/// The position, at or after `start`, of the occurrence of `k` that has `r`
/// earlier occurrences from `start` on; -1 when there is none.
pub open spec fn occurrence_from(keys: Seq<Seq<char>>, k: Seq<char>, r: int, start: int) -> int
    decreases keys.len() - start,
{
    if start < 0 || start >= keys.len() {
        -1
    } else if keys[start] == k {
        if r <= 0 {
            start
        } else {
            occurrence_from(keys, k, r - 1, start + 1)
        }
    } else {
        occurrence_from(keys, k, r, start + 1)
    }
}

/// The position of the `r`-th (from zero) occurrence of `k`; -1 if none.
pub open spec fn occurrence(keys: Seq<Seq<char>>, k: Seq<char>, r: int) -> int {
    occurrence_from(keys, k, r, 0)
}

/// The actual position that the expected item `j` is aligned with: the
/// actual item with the same key and as many earlier same-key items; -1
/// when the actual side has too few items with that key.
pub open spec fn aligned_position(ke: Seq<Seq<char>>, ka: Seq<Seq<char>>, j: int) -> int {
    occurrence(ka, ke[j], key_count(ke, ke[j], j) as int)
}

/// The actual positions of the aligned expected items among the first `n`,
/// in expected order.
pub open spec fn matched_positions(ke: Seq<Seq<char>>, ka: Seq<Seq<char>>, n: int) -> Seq<int>
    decreases n,
{
    if n <= 0 {
        seq![]
    } else {
        let m = matched_positions(ke, ka, n - 1);
        let i = aligned_position(ke, ka, n - 1);
        if i >= 0 {
            m.push(i)
        } else {
            m
        }
    }
}

/// Whether some position is followed directly by a smaller one.
pub open spec fn has_descent(s: Seq<int>) -> bool
    decreases s.len(),
{
    if s.len() < 2 {
        false
    } else {
        s[s.len() - 2] > s[s.len() - 1] || has_descent(s.drop_last())
    }
}

/// The arrangement identity compared case-insensitively (std `to_lowercase`).
pub open spec fn lowered_arrangement(item: PlaylistItemSummary) -> Option<Seq<char>> {
    match item.arrangement_uuid {
        Some(s) => Some(unicode_lowercase(s@)),
        None => None,
    }
}

/// std `Debug` of an optional string.
pub open spec fn debug_option(o: Option<String>) -> Seq<char> {
    match o {
        Some(s) => "Some("@ + debug_quoted(s@) + ")"@,
        None => "None"@,
    }
}

pub open spec fn missing_view(j: int, key: Seq<char>, name: Seq<char>) -> <PlaylistItemAlignedDiff as View>::V {
    (
        "missing_item_aligned"@,
        Some(j as usize),
        None,
        key,
        Some(name),
        None,
        "missing item '"@ + name + "'"@,
    )
}

pub open spec fn extra_view(i: int, key: Seq<char>, name: Seq<char>) -> <PlaylistItemAlignedDiff as View>::V {
    (
        "extra_item_aligned"@,
        None,
        Some(i as usize),
        key,
        None,
        Some(name),
        "extra item '"@ + name + "'"@,
    )
}

pub open spec fn moved_view(j: int, i: int, key: Seq<char>, e: Seq<char>, a: Seq<char>) -> <PlaylistItemAlignedDiff as View>::V {
    (
        "moved_item_aligned"@,
        Some(j as usize),
        Some(i as usize),
        key,
        Some(e),
        Some(a),
        "item '"@ + e + "' moved from index "@ + decimal(j as nat) + " to "@ + decimal(i as nat),
    )
}

pub open spec fn name_view(j: int, i: int, key: Seq<char>, e: Seq<char>, a: Seq<char>) -> <PlaylistItemAlignedDiff as View>::V {
    (
        "item_name_mismatch_aligned"@,
        Some(j as usize),
        Some(i as usize),
        key,
        Some(e),
        Some(a),
        "expected item name '"@ + e + "', found '"@ + a + "'"@,
    )
}

pub open spec fn arrangement_view(
    j: int,
    i: int,
    key: Seq<char>,
    e: PlaylistItemSummary,
    a: PlaylistItemSummary,
) -> <PlaylistItemAlignedDiff as View>::V {
    (
        "item_arrangement_mismatch_aligned"@,
        Some(j as usize),
        Some(i as usize),
        key,
        Some(e.name@),
        Some(a.name@),
        "expected arrangement "@ + debug_option(e.arrangement_uuid) + ", found "@ + debug_option(
            a.arrangement_uuid,
        ),
    )
}

/// The differences reported for expected item `j`, in report order:
/// arrangement, name, move; or the single missing-item difference.
pub open spec fn expected_item_diffs(
    expected: Seq<PlaylistItemSummary>,
    actual: Seq<PlaylistItemSummary>,
    changed: bool,
    j: int,
) -> Seq<<PlaylistItemAlignedDiff as View>::V> {
    let ke = item_keys(expected);
    let ka = item_keys(actual);
    let i = aligned_position(ke, ka, j);
    let e = expected[j];
    if i < 0 {
        seq![missing_view(j, ke[j], e.name@)]
    } else {
        let a = actual[i];
        (if lowered_arrangement(e) != lowered_arrangement(a) {
            seq![arrangement_view(j, i, ke[j], e, a)]
        } else {
            seq![]
        }) + (if e.name@ != a.name@ {
            seq![name_view(j, i, ke[j], e.name@, a.name@)]
        } else {
            seq![]
        }) + (if changed && i != j {
            seq![moved_view(j, i, ke[j], e.name@, a.name@)]
        } else {
            seq![]
        })
    }
}

/// Whether actual item `i` has no expected counterpart.
pub open spec fn is_extra(ke: Seq<Seq<char>>, ka: Seq<Seq<char>>, i: int) -> bool {
    key_count(ke, ka[i], ke.len() as int) <= key_count(ka, ka[i], i)
}

/// The extra-item differences among the first `n` actual items.
pub open spec fn extra_diffs(
    expected: Seq<PlaylistItemSummary>,
    actual: Seq<PlaylistItemSummary>,
    n: int,
) -> Seq<<PlaylistItemAlignedDiff as View>::V>
    decreases n,
{
    if n <= 0 {
        seq![]
    } else {
        let ka = item_keys(actual);
        extra_diffs(expected, actual, n - 1) + if is_extra(item_keys(expected), ka, n - 1) {
            seq![extra_view(n - 1, ka[n - 1], actual[n - 1].name@)]
        } else {
            seq![]
        }
    }
}

/// The differences of the first `n` expected items.
pub open spec fn expected_diffs(
    expected: Seq<PlaylistItemSummary>,
    actual: Seq<PlaylistItemSummary>,
    changed: bool,
    n: int,
) -> Seq<<PlaylistItemAlignedDiff as View>::V>
    decreases n,
{
    if n <= 0 {
        seq![]
    } else {
        expected_diffs(expected, actual, changed, n - 1) + expected_item_diffs(
            expected,
            actual,
            changed,
            n - 1,
        )
    }
}

/// Whether the aligned items appear in a different relative order.
pub open spec fn order_changed(expected: Seq<PlaylistItemSummary>, actual: Seq<PlaylistItemSummary>) -> bool {
    let ke = item_keys(expected);
    has_descent(matched_positions(ke, item_keys(actual), ke.len() as int))
}

/// Every aligned difference, ordered by expected index (absent first),
/// then actual index, then kind.
pub open spec fn aligned_item_diffs(
    expected: Seq<PlaylistItemSummary>,
    actual: Seq<PlaylistItemSummary>,
) -> Seq<<PlaylistItemAlignedDiff as View>::V> {
    extra_diffs(expected, actual, actual.len() as int) + expected_diffs(
        expected,
        actual,
        order_changed(expected, actual),
        expected.len() as int,
    )
}


fn keys_of(items: &[PlaylistItemSummary]) -> (r: Vec<Vec<char>>)
    ensures
        vec_views(r@) == item_keys(items@),
{
    let mut r: Vec<Vec<char>> = Vec::new();
    let mut i: usize = 0;
    while i < items.len()
        invariant
            i <= items.len(),
            vec_views(r@) == item_keys(items@).take(i as int),
        decreases items.len() - i,
    {
        let k = playlist_item_alignment_key(&items[i]);
        let ghost before = r@;
        r.push(k);
        proof {
            assert(vec_views(r@) =~= vec_views(before).push(k@));
            assert(item_keys(items@).take(i + 1) =~= item_keys(items@).take(i as int).push(
                alignment_key(items@[i as int]),
            ));
        }
        i += 1;
    }
    proof {
        assert(item_keys(items@).take(i as int) =~= item_keys(items@));
    }
    r
}

fn count_key(keys: &Vec<Vec<char>>, k: &[char], n: usize) -> (c: usize)
    requires
        n <= keys.len(),
    ensures
        c == key_count(vec_views(keys@), k@, n as int),
{
    let ghost kv = vec_views(keys@);
    let mut c: usize = 0;
    let mut i: usize = 0;
    while i < n
        invariant
            i <= n <= keys.len(),
            kv == vec_views(keys@),
            c == key_count(kv, k@, i as int),
            c <= i,
        decreases n - i,
    {
        if chars_eq(keys[i].as_slice(), k) {
            c += 1;
        }
        i += 1;
    }
    c
}

fn find_occurrence(keys: &Vec<Vec<char>>, k: &[char], r: usize) -> (o: Option<usize>)
    ensures
        match o {
            Some(i) => occurrence(vec_views(keys@), k@, r as int) == i as int && i < keys.len(),
            None => occurrence(vec_views(keys@), k@, r as int) == -1,
        },
{
    let ghost kv = vec_views(keys@);
    let mut seen: usize = 0;
    let mut i: usize = 0;
    while i < keys.len()
        invariant
            i <= keys.len(),
            kv == vec_views(keys@),
            seen <= r,
            occurrence(kv, k@, r as int) == occurrence_from(kv, k@, r - seen, i as int),
        decreases keys.len() - i,
    {
        if chars_eq(keys[i].as_slice(), k) {
            if seen == r {
                return Some(i);
            }
            seen += 1;
        }
        i += 1;
    }
    None
}

fn missing_diff(j: usize, key: &Vec<char>, name: &String) -> (d: PlaylistItemAlignedDiff)
    ensures
        d@ == missing_view(j as int, key@, name@),
{
    let mut m: Vec<char> = Vec::new();
    push_str(&mut m, "missing item '");
    push_str(&mut m, name.as_str());
    push_str(&mut m, "'");
    PlaylistItemAlignedDiff {
        kind: "missing_item_aligned".to_string(),
        expected_index: Some(j),
        actual_index: None,
        key: string_of(key.as_slice()),
        expected_name: Some(name.clone()),
        actual_name: None,
        message: string_of(m.as_slice()),
    }
}

fn extra_diff(i: usize, key: &Vec<char>, name: &String) -> (d: PlaylistItemAlignedDiff)
    ensures
        d@ == extra_view(i as int, key@, name@),
{
    let mut m: Vec<char> = Vec::new();
    push_str(&mut m, "extra item '");
    push_str(&mut m, name.as_str());
    push_str(&mut m, "'");
    PlaylistItemAlignedDiff {
        kind: "extra_item_aligned".to_string(),
        expected_index: None,
        actual_index: Some(i),
        key: string_of(key.as_slice()),
        expected_name: None,
        actual_name: Some(name.clone()),
        message: string_of(m.as_slice()),
    }
}

fn moved_diff(j: usize, i: usize, key: &Vec<char>, e: &String, a: &String) -> (d: PlaylistItemAlignedDiff)
    ensures
        d@ == moved_view(j as int, i as int, key@, e@, a@),
{
    let mut m: Vec<char> = Vec::new();
    push_str(&mut m, "item '");
    push_str(&mut m, e.as_str());
    push_str(&mut m, "' moved from index ");
    push_decimal(&mut m, j as u64);
    push_str(&mut m, " to ");
    push_decimal(&mut m, i as u64);
    PlaylistItemAlignedDiff {
        kind: "moved_item_aligned".to_string(),
        expected_index: Some(j),
        actual_index: Some(i),
        key: string_of(key.as_slice()),
        expected_name: Some(e.clone()),
        actual_name: Some(a.clone()),
        message: string_of(m.as_slice()),
    }
}

fn name_diff(j: usize, i: usize, key: &Vec<char>, e: &String, a: &String) -> (d: PlaylistItemAlignedDiff)
    ensures
        d@ == name_view(j as int, i as int, key@, e@, a@),
{
    let mut m: Vec<char> = Vec::new();
    push_str(&mut m, "expected item name '");
    push_str(&mut m, e.as_str());
    push_str(&mut m, "', found '");
    push_str(&mut m, a.as_str());
    push_str(&mut m, "'");
    PlaylistItemAlignedDiff {
        kind: "item_name_mismatch_aligned".to_string(),
        expected_index: Some(j),
        actual_index: Some(i),
        key: string_of(key.as_slice()),
        expected_name: Some(e.clone()),
        actual_name: Some(a.clone()),
        message: string_of(m.as_slice()),
    }
}

pub(crate) fn push_debug_option(out: &mut Vec<char>, o: &Option<String>)
    ensures
        final(out)@ == old(out)@ + debug_option(*o),
{
    match o {
        Some(s) => {
            push_str(out, "Some(");
            let q = str_debug(s.as_str());
            push_str(out, q.as_str());
            push_str(out, ")");
        },
        None => push_str(out, "None"),
    }
}

fn arrangement_diff(
    j: usize,
    i: usize,
    key: &Vec<char>,
    e: &PlaylistItemSummary,
    a: &PlaylistItemSummary,
) -> (d: PlaylistItemAlignedDiff)
    ensures
        d@ == arrangement_view(j as int, i as int, key@, *e, *a),
{
    let mut m: Vec<char> = Vec::new();
    push_str(&mut m, "expected arrangement ");
    push_debug_option(&mut m, &e.arrangement_uuid);
    push_str(&mut m, ", found ");
    push_debug_option(&mut m, &a.arrangement_uuid);
    PlaylistItemAlignedDiff {
        kind: "item_arrangement_mismatch_aligned".to_string(),
        expected_index: Some(j),
        actual_index: Some(i),
        key: string_of(key.as_slice()),
        expected_name: Some(e.name.clone()),
        actual_name: Some(a.name.clone()),
        message: string_of(m.as_slice()),
    }
}

pub(crate) fn same_lowered_arrangement(e: &PlaylistItemSummary, a: &PlaylistItemSummary) -> (r: bool)
    ensures
        r == (lowered_arrangement(*e) == lowered_arrangement(*a)),
{
    match (&e.arrangement_uuid, &a.arrangement_uuid) {
        (Some(x), Some(y)) => {
            let lx = to_lowercase(x.as_str());
            let ly = to_lowercase(y.as_str());
            str_eq(lx.as_str(), ly.as_str())
        },
        (None, None) => true,
        _ => false,
    }
}


/// The position of a found alignment, -1 for none.
pub open spec fn position_value(o: Option<usize>) -> int {
    match o {
        Some(p) => p as int,
        None => -1,
    }
}

fn diffs_for_expected_item(
    expected: &[PlaylistItemSummary],
    actual: &[PlaylistItemSummary],
    ke: &Vec<Vec<char>>,
    j: usize,
    pos: Option<usize>,
    changed: bool,
) -> (v: Vec<PlaylistItemAlignedDiff>)
    requires
        j < expected.len(),
        vec_views(ke@) == item_keys(expected@),
        position_value(pos) == aligned_position(item_keys(expected@), item_keys(actual@), j as int),
        pos matches Some(p) ==> p < actual.len(),
    ensures
        diff_views(v@) == expected_item_diffs(expected@, actual@, changed, j as int),
{
    let ghost kev = item_keys(expected@);
    let ghost key = kev[j as int];
    assert(vec_views(ke@).len() == ke@.len());
    assert(ke@[j as int]@ == key);
    let mut v: Vec<PlaylistItemAlignedDiff> = Vec::new();
    match pos {
        None => {
            v.push(missing_diff(j, &ke[j], &expected[j].name));
            proof {
                assert(diff_views(v@) =~= seq![missing_view(j as int, key, expected@[j as int].name@)]);
            }
        },
        Some(p) => {
            let e = &expected[j];
            let a = &actual[p];
            let ghost part1: Seq<<PlaylistItemAlignedDiff as View>::V> = if lowered_arrangement(*e)
                != lowered_arrangement(*a) {
                seq![arrangement_view(j as int, p as int, key, *e, *a)]
            } else {
                seq![]
            };
            let ghost part2: Seq<<PlaylistItemAlignedDiff as View>::V> = if e.name@ != a.name@ {
                seq![name_view(j as int, p as int, key, e.name@, a.name@)]
            } else {
                seq![]
            };
            let ghost part3: Seq<<PlaylistItemAlignedDiff as View>::V> = if changed && p != j {
                seq![moved_view(j as int, p as int, key, e.name@, a.name@)]
            } else {
                seq![]
            };
            if !same_lowered_arrangement(e, a) {
                v.push(arrangement_diff(j, p, &ke[j], e, a));
            }
            proof {
                assert(diff_views(v@) =~= part1);
            }
            let ghost v1 = v@;
            if !str_eq(e.name.as_str(), a.name.as_str()) {
                v.push(name_diff(j, p, &ke[j], &e.name, &a.name));
            }
            proof {
                assert(diff_views(v@) =~= diff_views(v1) + part2);
            }
            let ghost v2 = v@;
            if changed && p != j {
                v.push(moved_diff(j, p, &ke[j], &e.name, &a.name));
            }
            proof {
                assert(diff_views(v@) =~= diff_views(v2) + part3);
                assert(diff_views(v@) =~= part1 + part2 + part3);
            }
        },
    }
    v
}

/// Compares playlist items by stable presentation identity rather than
/// raw position, so one absent item does not make every later item differ.
///
/// Each expected item is aligned with the actual item of the same key and
/// the same number of earlier same-key items. Unaligned actual items are
/// extra, unaligned expected items missing; aligned items report a changed
/// arrangement (compared case-insensitively), a changed name, and, when the
/// aligned items are not in the same relative order, a move.
pub fn compare_playlist_items_aligned(
    expected: &[PlaylistItemSummary],
    actual: &[PlaylistItemSummary],
) -> (diffs: Vec<PlaylistItemAlignedDiff>)
    ensures
        diff_views(diffs@) == aligned_item_diffs(expected@, actual@),
{
    let ke = keys_of(expected);
    let ka = keys_of(actual);
    let ghost kev = item_keys(expected@);
    let ghost kav = item_keys(actual@);
    assert(ke.len() == expected.len() && ka.len() == actual.len()) by {
        assert(vec_views(ke@).len() == kev.len());
        assert(vec_views(ka@).len() == kav.len());
    }
    let mut diffs: Vec<PlaylistItemAlignedDiff> = Vec::new();
    let mut i: usize = 0;
    while i < actual.len()
        invariant
            i <= actual.len(),
            ke.len() == expected.len(),
            ka.len() == actual.len(),
            vec_views(ke@) == kev,
            vec_views(ka@) == kav,
            kev == item_keys(expected@),
            kav == item_keys(actual@),
            diff_views(diffs@) == extra_diffs(expected@, actual@, i as int),
        decreases actual.len() - i,
    {
        assert(ka@[i as int]@ == kav[i as int]);
        let in_expected = count_key(&ke, ka[i].as_slice(), ke.len());
        let earlier = count_key(&ka, ka[i].as_slice(), i);
        let ghost before = diffs@;
        if in_expected <= earlier {
            let d = extra_diff(i, &ka[i], &actual[i].name);
            diffs.push(d);
        }
        proof {
            assert(diff_views(diffs@) =~= extra_diffs(expected@, actual@, i + 1));
        }
        i += 1;
    }
    let ghost extras = diff_views(diffs@);

    let mut positions: Vec<Option<usize>> = Vec::new();
    let mut changed = false;
    let mut last: Option<usize> = None;
    let mut j: usize = 0;
    while j < expected.len()
        invariant
            j <= expected.len(),
            ke.len() == expected.len(),
            ka.len() == actual.len(),
            vec_views(ke@) == kev,
            vec_views(ka@) == kav,
            kev == item_keys(expected@),
            kav == item_keys(actual@),
            positions.len() == j,
            forall|x: int|
                0 <= x < j ==> position_value(#[trigger] positions@[x]) == aligned_position(kev, kav, x),
            forall|x: int| 0 <= x < j ==> (#[trigger] positions@[x] matches Some(p) ==> p < actual.len()),
            changed == has_descent(matched_positions(kev, kav, j as int)),
            match last {
                Some(p) => matched_positions(kev, kav, j as int).len() > 0 && matched_positions(
                    kev,
                    kav,
                    j as int,
                ).last() == p,
                None => matched_positions(kev, kav, j as int).len() == 0,
            },
        decreases expected.len() - j,
    {
        assert(ke@[j as int]@ == kev[j as int]);
        let r = count_key(&ke, ke[j].as_slice(), j);
        let o = find_occurrence(&ka, ke[j].as_slice(), r);
        let ghost m = matched_positions(kev, kav, j as int);
        match o {
            Some(p) => {
                proof {
                    let s = m.push(p as int);
                    if m.len() > 0 {
                        assert(s.drop_last() =~= m);
                    }
                }
                match last {
                    Some(q) => {
                        if q > p {
                            changed = true;
                        }
                    },
                    None => {},
                }
                last = Some(p);
            },
            None => {},
        }
        positions.push(o);
        j += 1;
    }
    assert(changed == order_changed(expected@, actual@));

    let mut j: usize = 0;
    while j < expected.len()
        invariant
            j <= expected.len(),
            ke.len() == expected.len(),
            vec_views(ke@) == kev,
            kev == item_keys(expected@),
            kav == item_keys(actual@),
            positions.len() == expected.len(),
            forall|x: int|
                0 <= x < expected.len() ==> position_value(#[trigger] positions@[x]) == aligned_position(
                    kev,
                    kav,
                    x,
                ),
            forall|x: int|
                0 <= x < expected.len() ==> (#[trigger] positions@[x] matches Some(p) ==> p < actual.len()),
            changed == order_changed(expected@, actual@),
            extras == extra_diffs(expected@, actual@, actual.len() as int),
            diff_views(diffs@) == extras + expected_diffs(expected@, actual@, changed, j as int),
        decreases expected.len() - j,
    {
        let item = diffs_for_expected_item(expected, actual, &ke, j, positions[j], changed);
        let ghost before = diffs@;
        let mut item = item;
        let ghost item_v = item@;
        diffs.append(&mut item);
        proof {
            assert(diffs@ == before + item_v);
            assert(diff_views(diffs@) =~= diff_views(before) + diff_views(item_v));
        }
        j += 1;
    }
    diffs
}


// ---------------------------------------------------------------------------
// Laws of the aligned comparison
// ---------------------------------------------------------------------------

proof fn lemma_key_count_mono(keys: Seq<Seq<char>>, k: Seq<char>, a: int, b: int)
    requires
        0 <= a <= b,
    ensures
        key_count(keys, k, a) <= key_count(keys, k, b),
    decreases b - a,
{
    if a < b {
        lemma_key_count_mono(keys, k, a, b - 1);
    }
}

proof fn lemma_occurrence_of_own_rank(keys: Seq<Seq<char>>, j: int, s: int)
    requires
        0 <= s <= j < keys.len(),
    ensures
        occurrence_from(
            keys,
            keys[j],
            key_count(keys, keys[j], j) - key_count(keys, keys[j], s),
            s,
        ) == j,
    decreases j - s,
{
    let k = keys[j];
    if s < j {
        lemma_key_count_mono(keys, k, s + 1, j);
        lemma_occurrence_of_own_rank(keys, j, s + 1);
    }
}

proof fn lemma_self_alignment(keys: Seq<Seq<char>>, j: int)
    requires
        0 <= j < keys.len(),
    ensures
        aligned_position(keys, keys, j) == j,
{
    lemma_occurrence_of_own_rank(keys, j, 0);
}

proof fn lemma_self_matched_positions(keys: Seq<Seq<char>>, n: int)
    requires
        0 <= n <= keys.len(),
    ensures
        matched_positions(keys, keys, n).len() == n,
        forall|x: int| 0 <= x < n ==> #[trigger] matched_positions(keys, keys, n)[x] == x,
        !has_descent(matched_positions(keys, keys, n)),
    decreases n,
{
    if n > 0 {
        lemma_self_matched_positions(keys, n - 1);
        lemma_self_alignment(keys, n - 1);
        let m = matched_positions(keys, keys, n);
        assert(m == matched_positions(keys, keys, n - 1).push(n - 1));
        assert(m.drop_last() =~= matched_positions(keys, keys, n - 1));
    }
}

proof fn lemma_no_extra_against_self(items: Seq<PlaylistItemSummary>, n: int)
    requires
        0 <= n <= items.len(),
    ensures
        extra_diffs(items, items, n) == Seq::<<PlaylistItemAlignedDiff as View>::V>::empty(),
    decreases n,
{
    if n > 0 {
        lemma_no_extra_against_self(items, n - 1);
        let keys = item_keys(items);
        lemma_key_count_mono(keys, keys[n - 1], n, keys.len() as int);
        assert(!is_extra(keys, keys, n - 1));
        assert(extra_diffs(items, items, n) =~= Seq::<<PlaylistItemAlignedDiff as View>::V>::empty());
    }
}

proof fn lemma_no_item_diff_against_self(items: Seq<PlaylistItemSummary>, n: int)
    requires
        0 <= n <= items.len(),
    ensures
        expected_diffs(items, items, false, n) == Seq::<<PlaylistItemAlignedDiff as View>::V>::empty(),
    decreases n,
{
    if n > 0 {
        lemma_no_item_diff_against_self(items, n - 1);
        lemma_self_alignment(item_keys(items), n - 1);
        assert(expected_item_diffs(items, items, false, n - 1) =~= Seq::<
            <PlaylistItemAlignedDiff as View>::V,
        >::empty());
        assert(expected_diffs(items, items, false, n) =~= Seq::<
            <PlaylistItemAlignedDiff as View>::V,
        >::empty());
    }
}

/// Comparing a playlist's items with themselves reports no difference.
pub proof fn law_aligned_compare_of_identical_items_is_empty(items: Seq<PlaylistItemSummary>)
    ensures
        aligned_item_diffs(items, items) == Seq::<<PlaylistItemAlignedDiff as View>::V>::empty(),
{
    let keys = item_keys(items);
    lemma_self_matched_positions(keys, keys.len() as int);
    lemma_no_extra_against_self(items, items.len() as int);
    lemma_no_item_diff_against_self(items, items.len() as int);
    assert(aligned_item_diffs(items, items) =~= Seq::<<PlaylistItemAlignedDiff as View>::V>::empty());
}


/// Keys that are pairwise different.
pub open spec fn distinct_keys(keys: Seq<Seq<char>>) -> bool {
    forall|a: int, b: int| 0 <= a < b < keys.len() ==> keys[a] != keys[b]
}

proof fn lemma_key_count_absent(keys: Seq<Seq<char>>, k: Seq<char>, n: int)
    requires
        0 <= n <= keys.len(),
        forall|x: int| 0 <= x < n ==> keys[x] != k,
    ensures
        key_count(keys, k, n) == 0,
    decreases n,
{
    if n > 0 {
        lemma_key_count_absent(keys, k, n - 1);
    }
}

proof fn lemma_key_count_present(keys: Seq<Seq<char>>, t: int)
    requires
        0 <= t < keys.len(),
    ensures
        key_count(keys, keys[t], keys.len() as int) >= 1,
{
    lemma_key_count_mono(keys, keys[t], t + 1, keys.len() as int);
}

proof fn lemma_first_occurrence(keys: Seq<Seq<char>>, k: Seq<char>, s: int, t: int)
    requires
        0 <= s <= t < keys.len(),
        keys[t] == k,
        forall|x: int| s <= x < t ==> keys[x] != k,
    ensures
        occurrence_from(keys, k, 0, s) == t,
    decreases t - s,
{
    if s < t {
        lemma_first_occurrence(keys, k, s + 1, t);
    }
}

proof fn lemma_no_occurrence(keys: Seq<Seq<char>>, k: Seq<char>, s: int)
    requires
        0 <= s <= keys.len(),
        forall|x: int| s <= x < keys.len() ==> keys[x] != k,
    ensures
        occurrence_from(keys, k, 0, s) == -1,
    decreases keys.len() - s,
{
    if s < keys.len() {
        lemma_no_occurrence(keys, k, s + 1);
    }
}

/// Where expected item `j` lands once item `k` is removed.
pub open spec fn shifted(j: int, k: int) -> int {
    if j < k {
        j
    } else {
        j - 1
    }
}

proof fn lemma_alignment_after_removal(ke: Seq<Seq<char>>, k: int, j: int)
    requires
        distinct_keys(ke),
        0 <= k < ke.len(),
        0 <= j < ke.len(),
    ensures
        aligned_position(ke, ke.remove(k), j) == if j == k { -1 } else { shifted(j, k) },
{
    let ka = ke.remove(k);
    lemma_key_count_absent(ke, ke[j], j);
    if j == k {
        lemma_no_occurrence(ka, ke[j], 0);
    } else {
        let t = shifted(j, k);
        assert(ka[t] == ke[j]);
        assert forall|x: int| 0 <= x < t implies ka[x] != ke[j] by {
            if x < k {
                assert(ka[x] == ke[x]);
            } else {
                assert(ka[x] == ke[x + 1]);
            }
        }
        lemma_first_occurrence(ka, ke[j], 0, t);
    }
}

proof fn lemma_removal_matched_positions(ke: Seq<Seq<char>>, k: int, n: int)
    requires
        distinct_keys(ke),
        0 <= k < ke.len(),
        0 <= n <= ke.len(),
    ensures
        matched_positions(ke, ke.remove(k), n).len() == if n <= k { n } else { n - 1 },
        forall|x: int|
            0 <= x < matched_positions(ke, ke.remove(k), n).len() ==> #[trigger] matched_positions(
                ke,
                ke.remove(k),
                n,
            )[x] == x,
        !has_descent(matched_positions(ke, ke.remove(k), n)),
    decreases n,
{
    if n > 0 {
        let ka = ke.remove(k);
        lemma_removal_matched_positions(ke, k, n - 1);
        lemma_alignment_after_removal(ke, k, n - 1);
        let prev = matched_positions(ke, ka, n - 1);
        if n - 1 != k {
            let m = matched_positions(ke, ka, n);
            assert(m == prev.push(shifted(n - 1, k)));
            assert(m.drop_last() =~= prev);
        }
    }
}

proof fn lemma_no_extra_after_removal(expected: Seq<PlaylistItemSummary>, k: int, n: int)
    requires
        distinct_keys(item_keys(expected)),
        0 <= k < expected.len(),
        0 <= n <= expected.len() - 1,
    ensures
        extra_diffs(expected, expected.remove(k), n) == Seq::<<PlaylistItemAlignedDiff as View>::V>::empty(),
    decreases n,
{
    if n > 0 {
        let actual = expected.remove(k);
        let ke = item_keys(expected);
        let ka = item_keys(actual);
        assert(ka =~= ke.remove(k));
        lemma_no_extra_after_removal(expected, k, n - 1);
        let i = n - 1;
        let src = if i < k { i } else { i + 1 };
        assert(ka[i] == ke[src]);
        lemma_key_count_present(ke, src);
        assert forall|x: int| 0 <= x < i implies ka[x] != ka[i] by {
            let xs = if x < k { x } else { x + 1 };
            assert(ka[x] == ke[xs]);
        }
        lemma_key_count_absent(ka, ka[i], i);
        assert(!is_extra(ke, ka, i));
        assert(extra_diffs(expected, actual, n) =~= Seq::<<PlaylistItemAlignedDiff as View>::V>::empty());
    }
}

proof fn lemma_item_diffs_after_removal(expected: Seq<PlaylistItemSummary>, k: int, n: int)
    requires
        distinct_keys(item_keys(expected)),
        0 <= k < expected.len(),
        0 <= n <= expected.len(),
    ensures
        expected_diffs(expected, expected.remove(k), false, n) == if n <= k {
            Seq::<<PlaylistItemAlignedDiff as View>::V>::empty()
        } else {
            seq![missing_view(k, item_keys(expected)[k], expected[k].name@)]
        },
    decreases n,
{
    if n > 0 {
        let actual = expected.remove(k);
        let ke = item_keys(expected);
        let ka = item_keys(actual);
        assert(ka =~= ke.remove(k));
        lemma_item_diffs_after_removal(expected, k, n - 1);
        let j = n - 1;
        lemma_alignment_after_removal(ke, k, j);
        if j != k {
            assert(actual[shifted(j, k)] == expected[j]);
            assert(expected_item_diffs(expected, actual, false, j) =~= Seq::<
                <PlaylistItemAlignedDiff as View>::V,
            >::empty());
        }
        assert(expected_diffs(expected, actual, false, n) =~= (if n <= k {
            Seq::<<PlaylistItemAlignedDiff as View>::V>::empty()
        } else {
            seq![missing_view(k, ke[k], expected[k].name@)]
        }));
    }
}

/// Removing one item from a playlist whose items have pairwise different
/// alignment keys is reported as exactly that missing item: the items after
/// it are not reported as moved or changed.
pub proof fn law_aligned_compare_reports_only_the_removed_item(
    expected: Seq<PlaylistItemSummary>,
    k: int,
)
    requires
        0 <= k < expected.len(),
        distinct_keys(item_keys(expected)),
    ensures
        aligned_item_diffs(expected, expected.remove(k)) == seq![
            missing_view(k, item_keys(expected)[k], expected[k].name@),
        ],
{
    let actual = expected.remove(k);
    let ke = item_keys(expected);
    assert(item_keys(actual) =~= ke.remove(k));
    lemma_removal_matched_positions(ke, k, ke.len() as int);
    lemma_no_extra_after_removal(expected, k, actual.len() as int);
    lemma_item_diffs_after_removal(expected, k, expected.len() as int);
    assert(aligned_item_diffs(expected, actual) =~= seq![missing_view(k, ke[k], expected[k].name@)]);
}


// ---------------------------------------------------------------------------
// Item summaries of a playlist document
// ---------------------------------------------------------------------------

/// The summary of a playlist item, when it is a presentation item.
pub open spec fn item_summary(item: PlaylistItem) -> Option<PlaylistItemSummary> {
    match item.item_type {
        Some(PlaylistItemType::Presentation(pres)) => {
            let url = pres.document_path;
            Some(
                PlaylistItemSummary {
                    item_uuid: item.uuid,
                    name: item.name,
                    item_tags: item.tags,
                    is_hidden: item.is_hidden,
                    document_platform: match url {
                        Some(u) => Some(u.platform),
                        None => None,
                    },
                    absolute_string: match url {
                        Some(u) => match u.storage {
                            Some(UrlStorage::AbsoluteString(v)) => Some(v),
                            _ => None,
                        },
                        None => None,
                    },
                    storage_relative_path: match url {
                        Some(u) => match u.storage {
                            Some(UrlStorage::RelativePath(v)) => Some(v),
                            _ => None,
                        },
                        None => None,
                    },
                    local_relative_path: match url {
                        Some(u) => match u.relative_file_path {
                            Some(RelativeFilePath::Local(l)) => Some(l.path),
                            _ => None,
                        },
                        None => None,
                    },
                    local_root: match url {
                        Some(u) => match u.relative_file_path {
                            Some(RelativeFilePath::Local(l)) => Some(l.root),
                            _ => None,
                        },
                        None => None,
                    },
                    external_relative_path: match url {
                        Some(u) => match u.relative_file_path {
                            Some(RelativeFilePath::External(e)) => Some(e.path),
                            _ => None,
                        },
                        None => None,
                    },
                    arrangement_uuid: pres.arrangement,
                    content_destination: pres.content_destination,
                    user_music_key: match pres.user_music_key {
                        Some(k) => Some((k.music_key, k.music_scale)),
                        None => None,
                    },
                    arrangement_name: pres.arrangement_name,
                },
            )
        },
        _ => None,
    }
}

/// Two summaries hold the same values.
pub open spec fn same_summary(a: PlaylistItemSummary, b: PlaylistItemSummary) -> bool {
    &&& a.item_uuid == b.item_uuid
    &&& a.name == b.name
    &&& a.item_tags@ == b.item_tags@
    &&& a.is_hidden == b.is_hidden
    &&& a.document_platform == b.document_platform
    &&& a.absolute_string == b.absolute_string
    &&& a.storage_relative_path == b.storage_relative_path
    &&& a.local_relative_path == b.local_relative_path
    &&& a.local_root == b.local_root
    &&& a.external_relative_path == b.external_relative_path
    &&& a.arrangement_uuid == b.arrangement_uuid
    &&& a.content_destination == b.content_destination
    &&& a.user_music_key == b.user_music_key
    &&& a.arrangement_name == b.arrangement_name
}

/// Two runs of summaries hold the same values, position by position.
pub open spec fn same_summaries(a: Seq<PlaylistItemSummary>, b: Seq<PlaylistItemSummary>) -> bool {
    a.len() == b.len() && forall|k: int| 0 <= k < a.len() ==> same_summary(#[trigger] a[k], b[k])
}

/// The summaries of the presentation items among the first `n` items.
pub open spec fn item_summaries(items: Seq<PlaylistItem>, n: int) -> Seq<PlaylistItemSummary>
    decreases n,
{
    if n <= 0 {
        seq![]
    } else {
        item_summaries(items, n - 1) + match item_summary(items[n - 1]) {
            Some(s) => seq![s],
            None => Seq::<PlaylistItemSummary>::empty(),
        }
    }
}

/// The presentation items of a playlist node in document order: those of
/// its legacy children first, then those of its nested playlists or items.
pub open spec fn node_summaries(p: Playlist) -> Seq<PlaylistItemSummary>
    decreases p, 1int,
{
    nodes_summaries(p.children@, p.children@.len() as int) + children_summaries(p)
}

/// The presentation items of a node's nested playlists or items.
pub open spec fn children_summaries(p: Playlist) -> Seq<PlaylistItemSummary>
    decreases p, 0int,
{
    match p.children_type {
        Some(PlaylistChildren::Playlists(ps)) => nodes_summaries(ps@, ps@.len() as int),
        Some(PlaylistChildren::Items(items)) => item_summaries(items@, items@.len() as int),
        None => Seq::<PlaylistItemSummary>::empty(),
    }
}

/// The presentation items of the first `n` nodes.
pub open spec fn nodes_summaries(ps: Seq<Playlist>, n: int) -> Seq<PlaylistItemSummary>
    decreases ps, n,
{
    if n <= 0 || n > ps.len() {
        seq![]
    } else {
        nodes_summaries(ps, n - 1) + node_summaries(ps[n - 1])
    }
}

/// The presentation items of a document.
pub open spec fn document_summaries(d: PlaylistDocument) -> Seq<PlaylistItemSummary> {
    match d.root_node {
        Some(root) => node_summaries(root),
        None => seq![],
    }
}

proof fn lemma_same_summaries_trans(
    a: Seq<PlaylistItemSummary>,
    b: Seq<PlaylistItemSummary>,
    c: Seq<PlaylistItemSummary>,
)
    requires
        same_summaries(a, b),
        same_summaries(b, c),
    ensures
        same_summaries(a, c),
{
    assert forall|k: int| 0 <= k < a.len() implies same_summary(#[trigger] a[k], c[k]) by {
        assert(same_summary(a[k], b[k]));
        assert(same_summary(b[k], c[k]));
    }
}

proof fn lemma_same_summaries_append(
    a: Seq<PlaylistItemSummary>,
    b: Seq<PlaylistItemSummary>,
    z: Seq<PlaylistItemSummary>,
)
    requires
        same_summaries(a, b),
    ensures
        same_summaries(a + z, b + z),
{
    assert forall|k: int| 0 <= k < (a + z).len() implies same_summary(#[trigger] (a + z)[k], (b + z)[k]) by {
        if k < a.len() {
            assert(same_summary(a[k], b[k]));
        }
    }
}

pub(crate) fn clone_opt_string(o: &Option<String>) -> (r: Option<String>)
    ensures
        r == *o,
{
    match o {
        Some(s) => Some(s.clone()),
        None => None,
    }
}

fn summarize_presentation_item(item: &PlaylistItem) -> (r: Option<PlaylistItemSummary>)
    ensures
        match (r, item_summary(*item)) {
            (Some(a), Some(b)) => same_summary(a, b),
            (None, None) => true,
            _ => false,
        },
{
    let pres = match &item.item_type {
        Some(PlaylistItemType::Presentation(p)) => p,
        _ => return None,
    };
    let mut tags: Vec<String> = Vec::new();
    let mut k: usize = 0;
    while k < item.tags.len()
        invariant
            k <= item.tags.len(),
            tags@ == item.tags@.take(k as int),
        decreases item.tags.len() - k,
    {
        tags.push(item.tags[k].clone());
        k += 1;
        proof {
            assert(tags@ =~= item.tags@.take(k as int));
        }
    }
    proof {
        assert(item.tags@.take(k as int) =~= item.tags@);
    }
    let (platform, absolute, storage, local, root, external) = match &pres.document_path {
        Some(u) => {
            let absolute = match &u.storage {
                Some(UrlStorage::AbsoluteString(v)) => Some(v.clone()),
                _ => None,
            };
            let storage = match &u.storage {
                Some(UrlStorage::RelativePath(v)) => Some(v.clone()),
                _ => None,
            };
            let (local, root, external) = match &u.relative_file_path {
                Some(RelativeFilePath::Local(l)) => (Some(l.path.clone()), Some(l.root), None),
                Some(RelativeFilePath::External(e)) => (None, None, Some(e.path.clone())),
                None => (None, None, None),
            };
            (Some(u.platform), absolute, storage, local, root, external)
        },
        None => (None, None, None, None, None, None),
    };
    let key = match &pres.user_music_key {
        Some(k) => Some((k.music_key, k.music_scale)),
        None => None,
    };
    Some(
        PlaylistItemSummary {
            item_uuid: clone_opt_string(&item.uuid),
            name: item.name.clone(),
            item_tags: tags,
            is_hidden: item.is_hidden,
            document_platform: platform,
            absolute_string: absolute,
            storage_relative_path: storage,
            local_relative_path: local,
            local_root: root,
            external_relative_path: external,
            arrangement_uuid: clone_opt_string(&pres.arrangement),
            content_destination: pres.content_destination,
            user_music_key: key,
            arrangement_name: pres.arrangement_name.clone(),
        },
    )
}

fn collect_item_summaries(list: &Vec<PlaylistItem>, items: &mut Vec<PlaylistItemSummary>)
    ensures
        same_summaries(final(items)@, old(items)@ + item_summaries(list@, list@.len() as int)),
{
    let ghost start = items@;
    let mut k: usize = 0;
    proof {
        assert(start + item_summaries(list@, 0) =~= start);
    }
    while k < list.len()
        invariant
            k <= list.len(),
            same_summaries(items@, start + item_summaries(list@, k as int)),
        decreases list.len() - k,
    {
        let ghost before = items@;
        match summarize_presentation_item(&list[k]) {
            Some(s) => {
                let ghost sv = s;
                items.push(s);
                proof {
                    let target = start + item_summaries(list@, k + 1);
                    assert(target =~= (start + item_summaries(list@, k as int)).push(
                        item_summary(list@[k as int])->0,
                    ));
                    assert forall|q: int| 0 <= q < items@.len() implies same_summary(
                        #[trigger] items@[q],
                        target[q],
                    ) by {
                        if q < before.len() {
                            assert(items@[q] == before[q]);
                            assert(same_summary(before[q], (start + item_summaries(list@, k as int))[q]));
                        }
                    }
                }
            },
            None => {
                proof {
                    assert(start + item_summaries(list@, k + 1) =~= start + item_summaries(
                        list@,
                        k as int,
                    ));
                }
            },
        }
        k += 1;
    }
}

fn collect_playlist_items(p: &Playlist, items: &mut Vec<PlaylistItemSummary>)
    ensures
        same_summaries(final(items)@, old(items)@ + node_summaries(*p)),
    decreases p,
{
    let ghost start = items@;
    let mut i: usize = 0;
    proof {
        assert(start + nodes_summaries(p.children@, 0) =~= start);
    }
    while i < p.children.len()
        invariant
            i <= p.children.len(),
            same_summaries(items@, start + nodes_summaries(p.children@, i as int)),
        decreases p.children.len() - i,
    {
        let ghost before = items@;
        proof {
            assert(decreases_to!(*p => p.children@[i as int]));
        }
        collect_playlist_items(&p.children[i], items);
        proof {
            lemma_same_summaries_append(
                before,
                start + nodes_summaries(p.children@, i as int),
                node_summaries(p.children@[i as int]),
            );
            lemma_same_summaries_trans(
                items@,
                before + node_summaries(p.children@[i as int]),
                start + nodes_summaries(p.children@, i as int) + node_summaries(p.children@[i as int]),
            );
            assert(start + nodes_summaries(p.children@, i + 1) =~= start + nodes_summaries(
                p.children@,
                i as int,
            ) + node_summaries(p.children@[i as int]));
        }
        i += 1;
    }
    let ghost mid = items@;
    match &p.children_type {
        Some(PlaylistChildren::Playlists(ps)) => {
            let mut j: usize = 0;
            proof {
                assert(mid + nodes_summaries(ps@, 0) =~= mid);
            }
            while j < ps.len()
                invariant
                    j <= ps.len(),
                    p.children_type == Some(PlaylistChildren::Playlists(*ps)),
                    same_summaries(items@, mid + nodes_summaries(ps@, j as int)),
                decreases ps.len() - j,
            {
                let ghost before = items@;
                proof {
                    let ct = p.children_type;
                    assert(decreases_to!(*p => p.children_type));
                    assert(ct->0 == PlaylistChildren::Playlists(*ps));
                    assert(decreases_to!(ct => ct->0));
                    assert(decreases_to!(ct->0 => ct->0->Playlists_0));
                    assert(decreases_to!(*ps => ps@));
                    assert(decreases_to!(ps@ => ps@[j as int]));
                    assert(decreases_to!(*p => ps@[j as int]));
                }
                collect_playlist_items(&ps[j], items);
                proof {
                    lemma_same_summaries_append(
                        before,
                        mid + nodes_summaries(ps@, j as int),
                        node_summaries(ps@[j as int]),
                    );
                    lemma_same_summaries_trans(
                        items@,
                        before + node_summaries(ps@[j as int]),
                        mid + nodes_summaries(ps@, j as int) + node_summaries(ps@[j as int]),
                    );
                    assert(mid + nodes_summaries(ps@, j + 1) =~= mid + nodes_summaries(ps@, j as int)
                        + node_summaries(ps@[j as int]));
                }
                j += 1;
            }
        },
        Some(PlaylistChildren::Items(list)) => {
            collect_item_summaries(list, items);
        },
        None => {
            proof {
                assert(mid + Seq::<PlaylistItemSummary>::empty() =~= mid);
            }
        },
    }
    proof {
        let tail = children_summaries(*p);
        lemma_same_summaries_append(mid, start + nodes_summaries(p.children@, p.children@.len() as int), tail);
        lemma_same_summaries_trans(
            items@,
            mid + tail,
            start + nodes_summaries(p.children@, p.children@.len() as int) + tail,
        );
        assert(start + node_summaries(*p) =~= start + nodes_summaries(
            p.children@,
            p.children@.len() as int,
        ) + tail);
    }
}

/// A compact summary of every presentation item of a playlist document,
/// in document order.
pub fn presentation_items(document: &PlaylistDocument) -> (r: Vec<PlaylistItemSummary>)
    ensures
        same_summaries(r@, document_summaries(*document)),
{
    let mut items: Vec<PlaylistItemSummary> = Vec::new();
    match &document.root_node {
        Some(root) => {
            collect_playlist_items(root, &mut items);
            proof {
                assert(Seq::<PlaylistItemSummary>::empty() + node_summaries(*root) =~= node_summaries(*root));
            }
        },
        None => {},
    }
    items
}

} // verus!

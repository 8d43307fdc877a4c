//! Native URL and file-locator semantics.
//!
//! A native file reference may be stored both as an absolute `file://` URL
//! and as a show-relative path. This module owns the translation between the
//! two so that package writing, resolution and inspection agree about
//! escaping and path boundaries.
use vstd::prelude::*;
use crate::document::{
    LocalRelativePath, RelativeFilePath, Url, UrlStorage, PLATFORM_MACOS, ROOT_SHOW,
};
use crate::percent::{
    all_ascii, ascii_bytes, law_percent_round_trip, lemma_decode_ascii_prefix, lemma_encode_ascii,
    lemma_encode_bytes_ascii, lemma_encode_bytes_front, lemma_encode_then_decode_bytes,
    lemma_strict_decode_plain_prefix, encode_byte, encode_bytes, lossy_decode, percent_encode_file_path,
    percent_encoded, strict_decode, strict_decode_bytes,
};
use vstd::utf8::{decode_utf8, encode_utf8};
pub use crate::percent::{percent_decode_lossy, percent_decode_strict};
use crate::text::{
    chars_eq, chars_eq_ignore_ascii_case, chars_of, chars_starts_with, eq_ignore_ascii_case, find_chars,
    find_first, join_range, join_with, keep_nonempty, nonempty_parts, push_all, replace_char,
    replace_chars, split_char, split_chars, string_of, trim, trim_str,
};

verus! {

// ---------------------------------------------------------------------------
// file:// URLs
// ---------------------------------------------------------------------------

/// The path part of a `file://` URL (an optional `localhost` authority
/// dropped), or the value itself when it is not such a URL.
pub open spec fn file_url_path(v: Seq<char>) -> Seq<char> {
    if "file://"@.is_prefix_of(v) {
        let r = v.skip(7);
        if "localhost"@.is_prefix_of(r) {
            r.skip(9)
        } else {
            r
        }
    } else {
        v
    }
}

fn file_url_path_chars(value: &str) -> (r: Vec<char>)
    ensures
        r@ == file_url_path(value@),
{
    let v = chars_of(value);
    let scheme = chars_of("file://");
    let host = chars_of("localhost");
    proof {
        reveal_strlit("file://");
        reveal_strlit("localhost");
    }
    let mut start: usize = 0;
    if chars_starts_with(v.as_slice(), scheme.as_slice()) {
        start = 7;
        let mut rest: Vec<char> = Vec::new();
        let mut i: usize = 7;
        while i < v.len()
            invariant
                7 <= i <= v.len(),
                rest@ == v@.subrange(7, i as int),
            decreases v.len() - i,
        {
            rest.push(v[i]);
            i += 1;
        }
        proof {
            assert(rest@ =~= v@.skip(7));
        }
        if chars_starts_with(rest.as_slice(), host.as_slice()) {
            start = 16;
        }
    }
    let mut r: Vec<char> = Vec::new();
    let mut i: usize = start;
    proof {
        if start == 16 {
            assert(v@.skip(7).skip(9) =~= v@.skip(16));
        }
    }
    while i < v.len()
        invariant
            start <= i <= v.len(),
            r@ == v@.subrange(start as int, i as int),
        decreases v.len() - i,
    {
        r.push(v[i]);
        i += 1;
    }
    proof {
        assert(r@ =~= v@.skip(start as int));
        assert(v@.skip(0) =~= v@);
    }
    r
}

/// Strict decoding of a native file URL or plain path.
pub open spec fn decode_url_or_path(v: Seq<char>) -> Option<Seq<char>> {
    strict_decode(file_url_path(v))
}

/// Decodes a native file URL or plain path, rejecting malformed escapes
/// and invalid UTF-8.
pub fn decode_file_url_or_path(value: &str) -> (r: Option<String>)
    ensures
        match r {
            Some(s) => decode_url_or_path(value@) == Some(s@),
            None => decode_url_or_path(value@) is None,
        },
{
    let path = file_url_path_chars(value);
    let s = string_of(path.as_slice());
    percent_decode_strict(s.as_str())
}

/// Decodes a native file URL or plain path for best-effort inspection.
pub fn decode_file_url_or_path_lossy(value: &str) -> (r: String)
    ensures
        r@ == lossy_decode(file_url_path(value@)),
{
    let path = file_url_path_chars(value);
    let s = string_of(path.as_slice());
    percent_decode_lossy(s.as_str())
}

/// The absolute string native playlists store for a path: an existing
/// `file://` URL unchanged, otherwise the percent-encoded path behind
/// `file://`.
pub open spec fn file_url_of(path: Seq<char>) -> Seq<char> {
    if "file://"@.is_prefix_of(path) {
        path
    } else {
        "file://"@ + percent_encoded(path)
    }
}

/// Encodes one path as the absolute string used by native playlist URLs.
pub fn file_url(path: &str) -> (r: String)
    ensures
        r@ == file_url_of(path@),
{
    let v = chars_of(path);
    let scheme = chars_of("file://");
    if chars_starts_with(v.as_slice(), scheme.as_slice()) {
        return path.to_string();
    }
    let mut out = scheme;
    let encoded = percent_encode_file_path(path);
    push_all(&mut out, encoded.as_slice());
    string_of(out.as_slice())
}

// ---------------------------------------------------------------------------
// Show-owned suffixes
// ---------------------------------------------------------------------------

/// A value that names another URI scheme than `file`.
pub open spec fn has_other_scheme(v: Seq<char>) -> bool {
    match find_first(v, "://"@) {
        Some(i) => !eq_ignore_ascii_case(v.take(i), "file"@),
        None => false,
    }
}

/// Native local locators may be `file://` URLs or plain paths; another URI
/// scheme is never read as a local path.
fn has_non_file_uri_scheme(value: &str) -> (r: bool)
    ensures
        r == has_other_scheme(value@),
{
    let v = chars_of(value);
    let sep = chars_of("://");
    match find_chars(v.as_slice(), sep.as_slice()) {
        Some(i) => {
            let mut scheme: Vec<char> = Vec::new();
            let mut k: usize = 0;
            while k < i
                invariant
                    k <= i <= v.len(),
                    scheme@ == v@.take(k as int),
                decreases i - k,
            {
                scheme.push(v[k]);
                k += 1;
            }
            let file = chars_of("file");
            !chars_eq_ignore_ascii_case(scheme.as_slice(), file.as_slice())
        },
        None => false,
    }
}

/// Path components of a decoded value: back slashes read as slashes, empty
/// pieces dropped.
pub open spec fn nonempty_components(d: Seq<char>) -> Seq<Seq<char>> {
    nonempty_parts(split_char(replace_char(d, '\\', '/'), '/'))
}

/// The first component equal to `root` ignoring ASCII case.
pub open spec fn first_component(parts: Seq<Seq<char>>, root: Seq<char>, i: int) -> bool {
    &&& 0 <= i < parts.len()
    &&& eq_ignore_ascii_case(parts[i], root)
    &&& forall|k: int| 0 <= k < i ==> !eq_ignore_ascii_case(#[trigger] parts[k], root)
}

/// The suffix of a local path starting at the first `root` component,
/// joined by `/`; `None` for other URI schemes, malformed escapes or no
/// such component.
pub open spec fn suffix_from_root(v: Seq<char>, root: Seq<char>) -> Option<Seq<char>> {
    if has_other_scheme(v) {
        None
    } else {
        match decode_url_or_path(v) {
            None => None,
            Some(d) => components_from(nonempty_components(d), root),
        }
    }
}

/// The components from the first `root` component on, joined by `/`.
pub open spec fn components_from(parts: Seq<Seq<char>>, root: Seq<char>) -> Option<Seq<char>> {
    if exists|i: int| first_component(parts, root, i) {
        Some(join_with(parts.skip(choose|i: int| first_component(parts, root, i)), '/'))
    } else {
        None
    }
}

fn find_component(parts: &Vec<Vec<char>>, root: &[char]) -> (r: Option<usize>)
    ensures
        ({
            let pv = parts@.map_values(|p: Vec<char>| p@);
            match r {
                Some(i) => first_component(pv, root@, i as int),
                None => forall|i: int| !first_component(pv, root@, i),
            }
        }),
{
    let ghost pv = parts@.map_values(|p: Vec<char>| p@);
    let mut i: usize = 0;
    while i < parts.len()
        invariant
            i <= parts.len(),
            pv == parts@.map_values(|p: Vec<char>| p@),
            forall|k: int| 0 <= k < i ==> !eq_ignore_ascii_case(#[trigger] pv[k], root@),
        decreases parts.len() - i,
    {
        if chars_eq_ignore_ascii_case(parts[i].as_slice(), root) {
            return Some(i);
        }
        i += 1;
    }
    None
}

proof fn lemma_first_component_unique(parts: Seq<Seq<char>>, root: Seq<char>, i: int, j: int)
    requires
        first_component(parts, root, i),
        first_component(parts, root, j),
    ensures
        i == j,
{
    if i < j {
        assert(!eq_ignore_ascii_case(parts[i], root));
    } else if j < i {
        assert(!eq_ignore_ascii_case(parts[j], root));
    }
}

fn show_relative_path_from_root(value: &str, root: &str) -> (r: Option<String>)
    ensures
        match r {
            Some(s) => suffix_from_root(value@, root@) == Some(s@),
            None => suffix_from_root(value@, root@) is None,
        },
{
    if has_non_file_uri_scheme(value) {
        return None;
    }
    let decoded = match decode_file_url_or_path(value) {
        Some(d) => d,
        None => return None,
    };
    let d = chars_of(decoded.as_str());
    let normalized = replace_chars(d.as_slice(), '\\', '/');
    let pieces = split_chars(normalized.as_slice(), '/');
    let parts = keep_nonempty(pieces);
    let root_chars = chars_of(root);
    let ghost pv = parts@.map_values(|p: Vec<char>| p@);
    proof {
        assert(pieces@.map_values(|p: Vec<char>| p@) == split_char(normalized@, '/'));
        assert(pv == nonempty_components(decoded@));
    }
    match find_component(&parts, root_chars.as_slice()) {
        Some(i) => {
            let joined = join_range(&parts, i, parts.len(), '/');
            proof {
                let c = choose|c: int| first_component(pv, root@, c);
                lemma_first_component_unique(pv, root@, c, i as int);
                assert(pv.subrange(i as int, parts.len() as int) =~= pv.skip(i as int));
                assert(decode_url_or_path(value@) == Some(decoded@));
                assert(!has_other_scheme(value@));
                assert(first_component(nonempty_components(decoded@), root@, i as int));
                assert(joined@ == join_with(pv.subrange(i as int, parts.len() as int), '/'));
                assert(joined@ == join_with(pv.skip(i as int), '/'));
                let c = choose|c: int| first_component(nonempty_components(decoded@), root@, c);
                assert(c == i);
                assert(components_from(pv, root@) == Some(joined@));
                assert(suffix_from_root(value@, root@) == Some(joined@));
            }
            Some(string_of(joined.as_slice()))
        },
        None => {
            proof {
                assert(suffix_from_root(value@, root@) is None);
            }
            None
        },
    }
}

/// The exact `Libraries/...` suffix of a local path, at a component
/// boundary.
pub fn library_relative_path(value: &str) -> (r: Option<String>)
    ensures
        match r {
            Some(s) => suffix_from_root(value@, "Libraries"@) == Some(s@),
            None => suffix_from_root(value@, "Libraries"@) is None,
        },
{
    show_relative_path_from_root(value, "Libraries")
}

/// The exact known show-owned suffix (`Libraries/...` or `Themes/...`).
pub open spec fn show_owned_suffix(v: Seq<char>) -> Option<Seq<char>> {
    match suffix_from_root(v, "Libraries"@) {
        Some(s) => Some(s),
        None => suffix_from_root(v, "Themes"@),
    }
}

fn show_owned_relative_path(value: &str) -> (r: Option<String>)
    ensures
        match r {
            Some(s) => show_owned_suffix(value@) == Some(s@),
            None => show_owned_suffix(value@) is None,
        },
{
    match library_relative_path(value) {
        Some(s) => Some(s),
        None => show_relative_path_from_root(value, "Themes"),
    }
}

// ---------------------------------------------------------------------------
// Basenames
// ---------------------------------------------------------------------------

/// Path separators of either platform.
pub open spec fn is_sep(c: char) -> bool {
    c == '/' || c == '\\'
}

/// Trailing separators removed.
pub open spec fn trim_end_seps(s: Seq<char>) -> Seq<char>
    decreases s.len(),
{
    if s.len() > 0 && is_sep(s.last()) {
        trim_end_seps(s.drop_last())
    } else {
        s
    }
}

/// The characters after the last separator.
pub open spec fn last_segment(s: Seq<char>) -> Seq<char>
    decreases s.len(),
{
    if s.len() == 0 || is_sep(s.last()) {
        Seq::empty()
    } else {
        last_segment(s.drop_last()).push(s.last())
    }
}

/// The final component of a decoded path, when it is not empty.
pub open spec fn basename_of(d: Seq<char>) -> Option<Seq<char>> {
    let s = last_segment(trim_end_seps(d));
    if s.len() > 0 {
        Some(s)
    } else {
        None
    }
}

fn basename_chars(d: &[char]) -> (r: Option<Vec<char>>)
    ensures
        match r {
            Some(s) => basename_of(d@) == Some(s@),
            None => basename_of(d@) is None,
        },
{
    let mut end: usize = d.len();
    proof {
        assert(d@.take(d.len() as int) =~= d@);
    }
    while end > 0 && (d[end - 1] == '/' || d[end - 1] == '\\')
        invariant
            end <= d.len(),
            trim_end_seps(d@) == trim_end_seps(d@.take(end as int)),
        decreases end,
    {
        proof {
            assert(d@.take(end as int).drop_last() =~= d@.take(end - 1));
        }
        end -= 1;
    }
    let ghost t = d@.take(end as int);
    assert(trim_end_seps(d@) == t);
    let mut start: usize = end;
    proof {
        assert(t.take(end as int) =~= t);
        assert(t.subrange(end as int, end as int) =~= Seq::<char>::empty());
    }
    while start > 0 && d[start - 1] != '/' && d[start - 1] != '\\'
        invariant
            start <= end <= d.len(),
            t == d@.take(end as int),
            last_segment(t) == last_segment(t.take(start as int)) + t.subrange(
                start as int,
                end as int,
            ),
        decreases start,
    {
        proof {
            let p = t.take(start as int);
            assert(p.drop_last() =~= t.take(start - 1));
            assert(p.last() == d@[start - 1]);
            assert(t.subrange(start - 1, end as int) =~= seq![d@[start - 1]] + t.subrange(
                start as int,
                end as int,
            ));
        }
        start -= 1;
    }
    proof {
        assert(last_segment(t.take(start as int)) =~= Seq::<char>::empty());
    }
    if start == end {
        return None;
    }
    let mut r: Vec<char> = Vec::new();
    let mut k: usize = start;
    while k < end
        invariant
            start <= k <= end <= d.len(),
            r@ == d@.subrange(start as int, k as int),
        decreases end - k,
    {
        r.push(d[k]);
        k += 1;
    }
    proof {
        assert(r@ =~= t.subrange(start as int, end as int));
    }
    Some(r)
}

/// The final decoded path component of a native URL or path.
pub fn decoded_basename(value: &str) -> (r: Option<String>)
    ensures
        match r {
            Some(s) => exists|d: Seq<char>|
                decode_url_or_path(value@) == Some(d) && basename_of(d) == Some(s@),
            None => match decode_url_or_path(value@) {
                Some(d) => basename_of(d) is None,
                None => true,
            },
        },
{
    let decoded = match decode_file_url_or_path(value) {
        Some(d) => d,
        None => return None,
    };
    let d = chars_of(decoded.as_str());
    match basename_chars(d.as_slice()) {
        Some(b) => Some(string_of(b.as_slice())),
        None => None,
    }
}

/// The final path component, decoding escapes leniently.
pub fn decoded_basename_lossy(value: &str) -> (r: Option<String>)
    ensures
        match r {
            Some(s) => basename_of(lossy_decode(file_url_path(value@))) == Some(s@),
            None => basename_of(lossy_decode(file_url_path(value@))) is None,
        },
{
    let decoded = decode_file_url_or_path_lossy(value);
    let d = chars_of(decoded.as_str());
    match basename_chars(d.as_slice()) {
        Some(b) => Some(string_of(b.as_slice())),
        None => None,
    }
}

/// Law: the absolute string written for a path that is neither a `file://`
/// URL nor begins with `localhost` decodes back to exactly that path;
/// every byte the encoding escapes, `%` included, decodes back.
pub proof fn law_file_url_round_trip(path: Seq<char>)
    requires
        !"file://"@.is_prefix_of(path),
        !"localhost"@.is_prefix_of(path),
    ensures
        decode_url_or_path(file_url_of(path)) == Some(path),
{
    reveal_strlit("file://");
    reveal_strlit("localhost");
    let e = percent_encoded(path);
    let u = "file://"@ + e;
    assert(u.skip(7) =~= e);
    assert("file://"@.is_prefix_of(u));
    let l = "localhost"@;
    if l.is_prefix_of(e) {
        let b = encode_utf8(path);
        lemma_encode_bytes_ascii(b);
        lemma_encode_then_decode_bytes(b);
        assert(e =~= l + e.skip(9));
        assert(ascii_bytes(e) =~= ascii_bytes(l) + ascii_bytes(e.skip(9)));
        assert(all_ascii(l)) by {
            vstd::utf8::char_u32_cast('l', 108);
            vstd::utf8::char_u32_cast('o', 111);
            vstd::utf8::char_u32_cast('c', 99);
            vstd::utf8::char_u32_cast('a', 97);
            vstd::utf8::char_u32_cast('h', 104);
            vstd::utf8::char_u32_cast('s', 115);
            vstd::utf8::char_u32_cast('t', 116);
            assert forall|i: int| 0 <= i < l.len() implies (#[trigger] l[i] as u32) < 128 by {
                assert(l[i] == 'l' || l[i] == 'o' || l[i] == 'c' || l[i] == 'a' || l[i] == 'h' || l[i] == 's' || l[i] == 't');
            }
        }
        lemma_strict_decode_plain_prefix(l, ascii_bytes(e.skip(9)));
        let d = strict_decode_bytes(ascii_bytes(e.skip(9)))->0;
        assert(b == ascii_bytes(l) + d);
        vstd::utf8::encode_utf8_valid_utf8(path);
        vstd::utf8::encode_utf8_decode_utf8(path);
        lemma_decode_ascii_prefix(l, d);
        assert(path == l + decode_utf8(d));
        assert(l.is_prefix_of(path)) by {
            assert(path.take(9) =~= l);
        }
    }
    assert(file_url_path(file_url_of(path)) == e);
    law_percent_round_trip(path);
}

/// Law: the absolute string written for any path is a `file://` URL,
/// writing it again changes nothing, and an existing `file://` URL is kept
/// as it is.
pub proof fn law_file_url_is_idempotent(path: Seq<char>)
    ensures
        "file://"@.is_prefix_of(file_url_of(path)),
        file_url_of(file_url_of(path)) == file_url_of(path),
        "file://"@.is_prefix_of(path) ==> file_url_of(path) == path,
{
    reveal_strlit("file://");
    if !"file://"@.is_prefix_of(path) {
        let e = percent_encoded(path);
        assert("file://"@.len() == 7);
        assert(("file://"@ + e).subrange(0, 7) =~= "file://"@);
        assert("file://"@.is_prefix_of("file://"@ + e));
    }
}

// ---------------------------------------------------------------------------
// Relative paths
// ---------------------------------------------------------------------------

/// A path component `..`.
pub open spec fn is_parent_component(c: Seq<char>) -> bool {
    c == seq!['.', '.']
}

/// A checked relative path: back slashes read as slashes, non-empty, not
/// rooted, and with no `..` component.
pub open spec fn checked_relative(v: Seq<char>) -> Option<Seq<char>> {
    let n = replace_char(v, '\\', '/');
    if n.len() == 0 || n[0] == '/' || exists|k: int|
        0 <= k < split_char(n, '/').len() && #[trigger] is_parent_component(split_char(n, '/')[k]) {
        None
    } else {
        Some(n)
    }
}

fn checked_relative_path(value: &[char]) -> (r: Option<Vec<char>>)
    ensures
        match r {
            Some(p) => checked_relative(value@) == Some(p@),
            None => checked_relative(value@) is None,
        },
{
    let n = replace_chars(value, '\\', '/');
    if n.len() == 0 || n[0] == '/' {
        proof {
            assert(checked_relative(value@) is None);
        }
        return None;
    }
    let parts = split_chars(n.as_slice(), '/');
    let ghost pv = parts@.map_values(|p: Vec<char>| p@);
    let mut k: usize = 0;
    while k < parts.len()
        invariant
            k <= parts.len(),
            pv == parts@.map_values(|p: Vec<char>| p@),
            pv == split_char(n@, '/'),
            n@ == replace_char(value@, '\\', '/'),
            n@.len() > 0 && n@[0] != '/',
            forall|m: int| 0 <= m < k ==> !#[trigger] is_parent_component(pv[m]),
        decreases parts.len() - k,
    {
        if parts[k].len() == 2 && parts[k][0] == '.' && parts[k][1] == '.' {
            proof {
                assert(pv[k as int] =~= seq!['.', '.']);
                assert(is_parent_component(pv[k as int]));
                assert(is_parent_component(split_char(replace_char(value@, '\\', '/'), '/')[k as int]));
                assert(checked_relative(value@) is None);
            }
            return None;
        }
        proof {
            if is_parent_component(pv[k as int]) {
                assert(pv[k as int][0] == '.');
            }
        }
        k += 1;
    }
    proof {
        assert(checked_relative(value@) == Some(n@));
    }
    Some(n)
}

/// A show-relative locator: strictly decoded, then checked.
pub open spec fn show_relative_locator(v: Seq<char>) -> Option<Seq<char>> {
    match strict_decode(v) {
        Some(d) => checked_relative(d),
        None => None,
    }
}

fn decode_show_relative_path(value: &str) -> (r: Option<Vec<char>>)
    ensures
        match r {
            Some(p) => show_relative_locator(value@) == Some(p@),
            None => show_relative_locator(value@) is None,
        },
{
    match percent_decode_strict(value) {
        Some(d) => {
            let chars = chars_of(d.as_str());
            checked_relative_path(chars.as_slice())
        },
        None => None,
    }
}

/// The show root of an absolute presentation path holding a `Libraries`
/// component: the components before the first one, joined by `/` and
/// written under a leading `/` when the path is rooted; `None` unless that
/// root is absolute.
pub open spec fn library_root(v: Seq<char>) -> Option<Seq<char>> {
    match decode_url_or_path(v) {
        None => None,
        Some(d) => root_before_libraries(replace_char(d, '\\', '/')),
    }
}

/// The root written from the components before the first `Libraries`.
pub open spec fn root_before_libraries(n: Seq<char>) -> Option<Seq<char>> {
    let parts = split_char(n, '/');
    if exists|i: int| first_component(parts, "Libraries"@, i) {
        root_from_prefix(n, parts, choose|i: int| first_component(parts, "Libraries"@, i))
    } else {
        None
    }
}

/// The root written from `parts[..i]`.
pub open spec fn root_from_prefix(n: Seq<char>, parts: Seq<Seq<char>>, i: int) -> Option<Seq<char>> {
    let prefix = join_with(parts.take(i), '/');
    let root = if n.len() > 0 && n[0] == '/' {
        seq!['/'] + prefix
    } else {
        prefix
    };
    if i > 0 && root.len() > 0 && root[0] == '/' {
        Some(root)
    } else {
        None
    }
}

/// Infers the show root from an absolute presentation path containing a
/// real `Libraries` component.
pub fn propresenter_root_from_library_path(value: &str) -> (r: Option<String>)
    ensures
        match r {
            Some(s) => library_root(value@) == Some(s@),
            None => library_root(value@) is None,
        },
{
    let decoded = match decode_file_url_or_path(value) {
        Some(d) => d,
        None => return None,
    };
    let d = chars_of(decoded.as_str());
    let n = replace_chars(d.as_slice(), '\\', '/');
    let parts = split_chars(n.as_slice(), '/');
    let libraries = chars_of("Libraries");
    let ghost pv = parts@.map_values(|p: Vec<char>| p@);
    let i = match find_component(&parts, libraries.as_slice()) {
        Some(i) => i,
        None => {
            proof {
                assert(parts@.map_values(|p: Vec<char>| p@) == split_char(n@, '/'));
                assert(!(exists|i: int| first_component(pv, "Libraries"@, i)));
            }
            return None;
        },
    };
    proof {
        assert(parts@.map_values(|p: Vec<char>| p@) == split_char(n@, '/'));
        let c = choose|c: int| first_component(pv, "Libraries"@, c);
        lemma_first_component_unique(pv, "Libraries"@, c, i as int);
        assert(library_root(value@) == root_from_prefix(n@, pv, i as int));
    }
    if i == 0 {
        return None;
    }
    let prefix = join_range(&parts, 0, i, '/');
    let mut root: Vec<char> = Vec::new();
    if n.len() > 0 && n[0] == '/' {
        root.push('/');
    }
    push_all(&mut root, prefix.as_slice());
    proof {
        assert(pv.subrange(0, i as int) =~= pv.take(i as int));
    }
    if root.len() > 0 && root[0] == '/' {
        Some(string_of(root.as_slice()))
    } else {
        None
    }
}

// ---------------------------------------------------------------------------
// Native URL values
// ---------------------------------------------------------------------------

/// The stored storage string when it is not blank.
pub open spec fn storage_source_of(u: Url) -> Option<Seq<char>> {
    match u.storage {
        Some(UrlStorage::AbsoluteString(v)) => if trim(v@).len() > 0 {
            Some(v@)
        } else {
            None
        },
        Some(UrlStorage::RelativePath(v)) => if trim(v@).len() > 0 {
            Some(v@)
        } else {
            None
        },
        None => None,
    }
}

/// The relative locator's path, of either kind.
pub open spec fn relative_path_of(u: Url) -> Option<Seq<char>> {
    match u.relative_file_path {
        Some(RelativeFilePath::Local(l)) => Some(l.path@),
        Some(RelativeFilePath::External(e)) => Some(e.path@),
        None => None,
    }
}

/// The preferred serialized source of a URL: non-blank storage, else the
/// relative locator's path.
pub open spec fn preferred_source_of(u: Url) -> Option<Seq<char>> {
    match storage_source_of(u) {
        Some(s) => Some(s),
        None => relative_path_of(u),
    }
}

fn is_blank(v: &str) -> (r: bool)
    ensures
        r == (trim(v@).len() == 0),
{
    let t = trim_str(v);
    chars_of(t.as_str()).len() == 0
}

fn storage_source(u: &Url) -> (r: Option<&str>)
    ensures
        match r {
            Some(s) => storage_source_of(*u) == Some(s@),
            None => storage_source_of(*u) is None,
        },
{
    match &u.storage {
        Some(UrlStorage::AbsoluteString(v)) => if is_blank(v.as_str()) {
            None
        } else {
            Some(v.as_str())
        },
        Some(UrlStorage::RelativePath(v)) => if is_blank(v.as_str()) {
            None
        } else {
            Some(v.as_str())
        },
        None => None,
    }
}

/// Preferred serialized source used for diagnostics and dependency identity.
pub fn preferred_source(u: &Url) -> (r: Option<&str>)
    ensures
        match r {
            Some(s) => preferred_source_of(*u) == Some(s@),
            None => preferred_source_of(*u) is None,
        },
{
    match storage_source(u) {
        Some(s) => Some(s),
        None => match &u.relative_file_path {
            Some(RelativeFilePath::Local(l)) => Some(l.path.as_str()),
            Some(RelativeFilePath::External(e)) => Some(e.path.as_str()),
            None => None,
        },
    }
}

/// The two native playlist locators of a presentation path: its absolute
/// `file://` string and, when the path has a `Libraries` component, the
/// show-relative suffix from there.
pub fn presentation_document_url(path: &str) -> (u: Url)
    ensures
        u.platform == PLATFORM_MACOS,
        u.storage matches Some(UrlStorage::AbsoluteString(s)) && s@ == file_url_of(path@),
        match suffix_from_root(path@, "Libraries"@) {
            Some(rel) => u.relative_file_path matches Some(RelativeFilePath::Local(l)) && l.root
                == ROOT_SHOW && l.path@ == rel,
            None => u.relative_file_path is None,
        },
{
    let relative = library_relative_path(path);
    let relative_file_path = match relative {
        Some(p) => Some(RelativeFilePath::Local(LocalRelativePath { root: ROOT_SHOW, path: p })),
        None => None,
    };
    Url {
        platform: PLATFORM_MACOS,
        storage: Some(UrlStorage::AbsoluteString(file_url(path))),
        relative_file_path,
    }
}

// ---------------------------------------------------------------------------
// Paths as std compares them
// ---------------------------------------------------------------------------

/// Pieces other than empty ones and `.`.
pub open spec fn normal_pieces(p: Seq<Seq<char>>) -> Seq<Seq<char>>
    decreases p.len(),
{
    if p.len() == 0 {
        Seq::empty()
    } else {
        let r = normal_pieces(p.drop_last());
        if p.last().len() == 0 || p.last() == seq!['.'] {
            r
        } else {
            r.push(p.last())
        }
    }
}

/// A path starting at the root.
pub open spec fn is_absolute(s: Seq<char>) -> bool {
    s.len() > 0 && s[0] == '/'
}

/// The components of a Unix path as std `Path::components` yields them,
/// each as its text: `/` for the root, a leading `.` of a relative path,
/// then the other pieces between slashes that are neither empty nor `.`.
/// Two paths are equal for std exactly when these agree.
pub open spec fn path_components(s: Seq<char>) -> Seq<Seq<char>> {
    let pieces = split_char(s, '/');
    (if is_absolute(s) {
        seq![seq!['/']]
    } else {
        Seq::empty()
    }) + (if !is_absolute(s) && pieces[0] == seq!['.'] {
        seq![seq!['.']]
    } else {
        Seq::empty()
    }) + normal_pieces(pieces)
}

/// The final component of a path when it names a file or directory
/// (std `Path::file_name`).
pub open spec fn file_name_of(s: Seq<char>) -> Option<Seq<char>> {
    let c = path_components(s);
    if c.len() > 0 && c.last() != seq!['/'] && c.last() != seq!['.'] && c.last() != seq!['.', '.'] {
        Some(c.last())
    } else {
        None
    }
}

/// `v` with `x` appended unless an equal path is already there.
pub open spec fn push_unique_path(v: Seq<Seq<char>>, x: Seq<char>) -> Seq<Seq<char>> {
    if exists|i: int| 0 <= i < v.len() && path_components(#[trigger] v[i]) == path_components(x) {
        v
    } else {
        v.push(x)
    }
}

fn is_dot(p: &[char]) -> (r: bool)
    ensures
        r == (p@ == seq!['.']),
{
    let r = p.len() == 1 && p[0] == '.';
    proof {
        if p@ == seq!['.'] {
            assert(p@.len() == 1);
        }
        if r {
            assert(p@ =~= seq!['.']);
        }
    }
    r
}

pub(crate) fn path_components_of(s: &[char]) -> (r: Vec<Vec<char>>)
    ensures
        r@.map_values(|p: Vec<char>| p@) == path_components(s@),
{
    let pieces = split_chars(s, '/');
    let ghost pv = pieces@.map_values(|p: Vec<char>| p@);
    proof {
        crate::text::lemma_split_char_nonempty(s@, '/');
    }
    let rooted = s.len() > 0 && s[0] == '/';
    let mut r: Vec<Vec<char>> = Vec::new();
    if rooted {
        let mut root: Vec<char> = Vec::new();
        root.push('/');
        r.push(root);
    } else if is_dot(pieces[0].as_slice()) {
        let mut dot: Vec<char> = Vec::new();
        dot.push('.');
        r.push(dot);
    }
    let ghost head = r@.map_values(|p: Vec<char>| p@);
    proof {
        assert(head =~= (if is_absolute(s@) {
            seq![seq!['/']]
        } else {
            Seq::empty()
        }) + (if !is_absolute(s@) && pv[0] == seq!['.'] {
            seq![seq!['.']]
        } else {
            Seq::empty()
        }));
        assert(pv.take(0) =~= Seq::<Seq<char>>::empty());
        assert(r@.map_values(|p: Vec<char>| p@) =~= head + normal_pieces(pv.take(0)));
    }
    let mut i: usize = 0;
    while i < pieces.len()
        invariant
            i <= pieces.len(),
            pv == pieces@.map_values(|p: Vec<char>| p@),
            r@.map_values(|p: Vec<char>| p@) == head + normal_pieces(pv.take(i as int)),
        decreases pieces.len() - i,
    {
        proof {
            assert(pv.take(i + 1).drop_last() =~= pv.take(i as int));
            assert(pv.take(i + 1).last() == pieces@[i as int]@);
        }
        if pieces[i].len() > 0 && !is_dot(pieces[i].as_slice()) {
            let ghost before = r@;
            r.push(pieces[i].clone());
            proof {
                assert(r@.map_values(|p: Vec<char>| p@) =~= before.map_values(|p: Vec<char>| p@).push(
                    pieces@[i as int]@,
                ));
            }
        }
        i += 1;
    }
    proof {
        assert(pv.take(pieces.len() as int) =~= pv);
    }
    r
}

fn components_eq(a: &Vec<Vec<char>>, b: &Vec<Vec<char>>) -> (r: bool)
    ensures
        r == (a@.map_values(|p: Vec<char>| p@) == b@.map_values(|p: Vec<char>| p@)),
{
    let ghost av = a@.map_values(|p: Vec<char>| p@);
    let ghost bv = b@.map_values(|p: Vec<char>| p@);
    if a.len() != b.len() {
        proof {
            assert(av.len() != bv.len());
        }
        return false;
    }
    let mut i: usize = 0;
    while i < a.len()
        invariant
            i <= a.len() == b.len(),
            av == a@.map_values(|p: Vec<char>| p@),
            bv == b@.map_values(|p: Vec<char>| p@),
            forall|k: int| 0 <= k < i ==> av[k] == bv[k],
        decreases a.len() - i,
    {
        if !crate::text::chars_eq(a[i].as_slice(), b[i].as_slice()) {
            proof {
                assert(av[i as int] != bv[i as int]);
            }
            return false;
        }
        i += 1;
    }
    proof {
        assert(av =~= bv);
    }
    true
}

fn same_path(a: &[char], b: &[char]) -> (r: bool)
    ensures
        r == (path_components(a@) == path_components(b@)),
{
    let x = path_components_of(a);
    let y = path_components_of(b);
    components_eq(&x, &y)
}

fn push_unique(v: &mut Vec<Vec<char>>, x: Vec<char>)
    ensures
        final(v)@.map_values(|p: Vec<char>| p@) == push_unique_path(
            old(v)@.map_values(|p: Vec<char>| p@),
            x@,
        ),
{
    let ghost ov = v@.map_values(|p: Vec<char>| p@);
    let mut i: usize = 0;
    while i < v.len()
        invariant
            i <= v.len(),
            ov == v@.map_values(|p: Vec<char>| p@),
            forall|k: int| 0 <= k < i ==> path_components(#[trigger] ov[k]) != path_components(x@),
        decreases v.len() - i,
    {
        if same_path(v[i].as_slice(), x.as_slice()) {
            proof {
                assert(path_components(ov[i as int]) == path_components(x@));
            }
            return;
        }
        i += 1;
    }
    v.push(x);
    proof {
        assert(v@.map_values(|p: Vec<char>| p@) =~= ov.push(x@));
    }
}

pub(crate) fn file_name(s: &[char]) -> (r: Option<Vec<char>>)
    ensures
        match r {
            Some(n) => file_name_of(s@) == Some(n@),
            None => file_name_of(s@) is None,
        },
{
    let c = path_components_of(s);
    let ghost cv = c@.map_values(|p: Vec<char>| p@);
    if c.len() == 0 {
        return None;
    }
    let last = &c[c.len() - 1];
    proof {
        assert(cv.last() == last@);
    }
    let is_root = last.len() == 1 && last[0] == '/';
    let is_cur = last.len() == 1 && last[0] == '.';
    let is_parent = last.len() == 2 && last[0] == '.' && last[1] == '.';
    proof {
        if last@ == seq!['/'] {
            assert(is_root);
        }
        if is_root {
            assert(last@ =~= seq!['/']);
        }
        if last@ == seq!['.'] {
            assert(is_cur);
        }
        if is_cur {
            assert(last@ =~= seq!['.']);
        }
        if last@ == seq!['.', '.'] {
            assert(is_parent);
        }
        if is_parent {
            assert(last@ =~= seq!['.', '.']);
        }
    }
    if is_root || is_cur || is_parent {
        None
    } else {
        Some(last.clone())
    }
}

// ---------------------------------------------------------------------------
// File locators
// ---------------------------------------------------------------------------

/// Abstract locator: source, show-relative candidates, absolute
/// candidates, basename.
pub type LocatorView = (Seq<char>, Seq<Seq<char>>, Seq<Seq<char>>, Option<Seq<char>>);

/// Show-relative candidates of a URL: its show-root locator, then a
/// show-owned suffix of its storage, then a relative storage path; each
/// checked and kept once.
pub open spec fn locator_show_paths(u: Url) -> Seq<Seq<char>> {
    let v1 = match u.relative_file_path {
        Some(RelativeFilePath::Local(l)) => if l.root == ROOT_SHOW {
            match show_relative_locator(l.path@) {
                Some(p) => push_unique_path(Seq::empty(), p),
                None => Seq::empty(),
            }
        } else {
            Seq::empty()
        },
        _ => Seq::empty(),
    };
    match storage_source_of(u) {
        None => v1,
        Some(st) => {
            let v2 = match show_owned_suffix(st) {
                Some(r) => match checked_relative(r) {
                    Some(c) => push_unique_path(v1, c),
                    None => v1,
                },
                None => v1,
            };
            match decode_url_or_path(st) {
                Some(d) => if !is_absolute(d) && find_first(d, "://"@) is None {
                    match checked_relative(d) {
                        Some(c) => push_unique_path(v2, c),
                        None => v2,
                    }
                } else {
                    v2
                },
                None => v2,
            }
        },
    }
}

/// Absolute candidates of a URL: its decoded absolute storage, then its
/// decoded absolute external path; each kept once.
pub open spec fn locator_absolute_paths(u: Url) -> Seq<Seq<char>> {
    let a1 = match storage_source_of(u) {
        Some(st) => match decode_url_or_path(st) {
            Some(d) => if is_absolute(d) {
                push_unique_path(Seq::empty(), d)
            } else {
                Seq::empty()
            },
            None => Seq::empty(),
        },
        None => Seq::empty(),
    };
    match u.relative_file_path {
        Some(RelativeFilePath::External(e)) => match strict_decode(e.path@) {
            Some(d) => if is_absolute(d) {
                push_unique_path(a1, d)
            } else {
                a1
            },
            None => a1,
        },
        _ => a1,
    }
}

/// The first file name among `paths`.
pub open spec fn first_file_name(paths: Seq<Seq<char>>) -> Option<Seq<char>>
    decreases paths.len(),
{
    if paths.len() == 0 {
        None
    } else {
        match file_name_of(paths[0]) {
            Some(n) => Some(n),
            None => first_file_name(paths.drop_first()),
        }
    }
}

/// The locator a URL compiles to, when it has a non-blank source.
pub open spec fn locator_of(u: Url) -> Option<LocatorView> {
    match preferred_source_of(u) {
        None => None,
        Some(src) => if trim(src).len() == 0 {
            None
        } else {
            let show = locator_show_paths(u);
            let abs = locator_absolute_paths(u);
            let base = match first_file_name(show + abs) {
                Some(n) => Some(n),
                None => match decode_url_or_path(src) {
                    Some(d) => basename_of(d),
                    None => None,
                },
            };
            Some((src, show, abs, base))
        },
    }
}

/// Local resolution of a locator.
#[derive(Debug, PartialEq, Eq)]
pub enum NativeFileResolution {
    /// The first candidate that exists.
    Available(String),
    /// No candidate exists; the preferred one.
    Missing(String),
    /// There is no local candidate.
    Unresolved,
}

/// One native file reference with its local resolution semantics compiled
/// once. Show-relative candidates always come before stored absolute ones,
/// which may be stale.
pub struct NativeFileLocator {
    source: String,
    show_relative_paths: Vec<Vec<char>>,
    absolute_paths: Vec<Vec<char>>,
    basename: Option<String>,
}

impl View for NativeFileLocator {
    type V = LocatorView;

    closed spec fn view(&self) -> LocatorView {
        (
            self.source@,
            self.show_relative_paths@.map_values(|p: Vec<char>| p@),
            self.absolute_paths@.map_values(|p: Vec<char>| p@),
            match self.basename {
                Some(b) => Some(b@),
                None => None,
            },
        )
    }
}

/// Candidates in resolution order: show-relative ones under `root`, then
/// absolute ones; each kept once.
pub open spec fn candidates_of(l: LocatorView, root: Option<Seq<char>>) -> Seq<Seq<char>> {
    let under = match root {
        Some(r) => push_all_unique(Seq::empty(), l.1.map_values(|p: Seq<char>| crate::naming::path_join(r, p))),
        None => Seq::empty(),
    };
    push_all_unique(under, l.2)
}

/// `v` extended by each of `xs` in turn, keeping paths unique.
pub open spec fn push_all_unique(v: Seq<Seq<char>>, xs: Seq<Seq<char>>) -> Seq<Seq<char>>
    decreases xs.len(),
{
    if xs.len() == 0 {
        v
    } else {
        push_unique_path(push_all_unique(v, xs.drop_last()), xs.last())
    }
}

/// The character view of an optional string slice.
pub open spec fn str_opt_view(o: Option<&str>) -> Option<Seq<char>> {
    match o {
        Some(s) => Some(s@),
        None => None,
    }
}

/// The character views of a list of strings.
pub open spec fn string_views(v: Seq<String>) -> Seq<Seq<char>> {
    v.map_values(|s: String| s@)
}

/// Whether `p` is one of `existing`, as std compares paths.
pub open spec fn path_in(existing: Seq<Seq<char>>, p: Seq<char>) -> bool {
    exists|i: int| 0 <= i < existing.len() && path_components(#[trigger] existing[i]) == path_components(p)
}

/// Candidate `i` is the first that exists.
pub open spec fn first_available(c: Seq<Seq<char>>, existing: Seq<Seq<char>>, i: int) -> bool {
    &&& 0 <= i < c.len()
    &&& path_in(existing, c[i])
    &&& forall|k: int| 0 <= k < i ==> !path_in(existing, #[trigger] c[k])
}

fn path_listed(existing: &Vec<String>, p: &[char]) -> (r: bool)
    ensures
        r == path_in(string_views(existing@), p@),
{
    let ghost ev = string_views(existing@);
    let mut i: usize = 0;
    while i < existing.len()
        invariant
            i <= existing.len(),
            ev == string_views(existing@),
            forall|k: int| 0 <= k < i ==> path_components(#[trigger] ev[k]) != path_components(p@),
        decreases existing.len() - i,
    {
        let e = chars_of(existing[i].as_str());
        if same_path(e.as_slice(), p) {
            proof {
                assert(path_components(ev[i as int]) == path_components(p@));
            }
            return true;
        }
        i += 1;
    }
    false
}

fn push_all_unique_exec(v: &mut Vec<Vec<char>>, xs: &Vec<Vec<char>>)
    ensures
        final(v)@.map_values(|p: Vec<char>| p@) == push_all_unique(
            old(v)@.map_values(|p: Vec<char>| p@),
            xs@.map_values(|p: Vec<char>| p@),
        ),
{
    let ghost ov = v@.map_values(|p: Vec<char>| p@);
    let ghost xv = xs@.map_values(|p: Vec<char>| p@);
    let mut i: usize = 0;
    proof {
        assert(xv.take(0) =~= Seq::<Seq<char>>::empty());
    }
    while i < xs.len()
        invariant
            i <= xs.len(),
            xv == xs@.map_values(|p: Vec<char>| p@),
            v@.map_values(|p: Vec<char>| p@) == push_all_unique(ov, xv.take(i as int)),
        decreases xs.len() - i,
    {
        proof {
            assert(xv.take(i + 1).drop_last() =~= xv.take(i as int));
            assert(xv.take(i + 1).last() == xs@[i as int]@);
        }
        push_unique(v, xs[i].clone());
        i += 1;
    }
    proof {
        assert(xv.take(xs.len() as int) =~= xv);
    }
}

fn same_path_lists(a: &Vec<Vec<char>>, b: &Vec<Vec<char>>) -> (r: bool)
    ensures
        r == (a@.map_values(|p: Vec<char>| p@) == b@.map_values(|p: Vec<char>| p@)),
{
    let ghost av = a@.map_values(|p: Vec<char>| p@);
    let ghost bv = b@.map_values(|p: Vec<char>| p@);
    if a.len() != b.len() {
        proof {
            assert(av.len() != bv.len());
        }
        return false;
    }
    let mut i: usize = 0;
    while i < a.len()
        invariant
            i <= a.len(),
            a.len() == b.len(),
            av == a@.map_values(|p: Vec<char>| p@),
            bv == b@.map_values(|p: Vec<char>| p@),
            forall|k: int| 0 <= k < i ==> av[k] == bv[k],
        decreases a.len() - i,
    {
        if !chars_eq(a[i].as_slice(), b[i].as_slice()) {
            proof {
                assert(av[i as int] != bv[i as int]);
            }
            return false;
        }
        i += 1;
    }
    proof {
        assert(av =~= bv);
    }
    true
}

impl NativeFileLocator {
    /// Compiles the local locator state of one native URL; `None` when it
    /// has no non-blank source. Remote and malformed references stay as
    /// locators without local candidates.
    pub fn from_url(u: &Url) -> (r: Option<NativeFileLocator>)
        ensures
            match r {
                Some(l) => locator_of(*u) == Some(l@),
                None => locator_of(*u) is None,
            },
    {
        let source = match preferred_source(u) {
            Some(s) => s,
            None => return None,
        };
        if is_blank(source) {
            return None;
        }
        let mut show: Vec<Vec<char>> = Vec::new();
        let mut absolute: Vec<Vec<char>> = Vec::new();
        proof {
            assert(show@.map_values(|p: Vec<char>| p@) =~= Seq::<Seq<char>>::empty());
            assert(absolute@.map_values(|p: Vec<char>| p@) =~= Seq::<Seq<char>>::empty());
        }
        match &u.relative_file_path {
            Some(RelativeFilePath::Local(l)) => {
                if l.root == ROOT_SHOW {
                    match decode_show_relative_path(l.path.as_str()) {
                        Some(p) => push_unique(&mut show, p),
                        None => {},
                    }
                }
            },
            _ => {},
        }
        match storage_source(u) {
            Some(st) => {
                match show_owned_relative_path(st) {
                    Some(rel) => {
                        let rc = chars_of(rel.as_str());
                        match checked_relative_path(rc.as_slice()) {
                            Some(c) => push_unique(&mut show, c),
                            None => {},
                        }
                    },
                    None => {},
                }
                match decode_file_url_or_path(st) {
                    Some(decoded) => {
                        let d = chars_of(decoded.as_str());
                        let sep = chars_of("://");
                        if d.len() > 0 && d[0] == '/' {
                            push_unique(&mut absolute, d);
                        } else if find_chars(d.as_slice(), sep.as_slice()).is_none() {
                            match checked_relative_path(d.as_slice()) {
                                Some(c) => push_unique(&mut show, c),
                                None => {},
                            }
                        }
                    },
                    None => {},
                }
            },
            None => {},
        }
        match &u.relative_file_path {
            Some(RelativeFilePath::External(e)) => {
                match percent_decode_strict(e.path.as_str()) {
                    Some(decoded) => {
                        let d = chars_of(decoded.as_str());
                        if d.len() > 0 && d[0] == '/' {
                            push_unique(&mut absolute, d);
                        }
                    },
                    None => {},
                }
            },
            _ => {},
        }
        proof {
            assert(show@.map_values(|p: Vec<char>| p@) == locator_show_paths(*u));
            assert(absolute@.map_values(|p: Vec<char>| p@) == locator_absolute_paths(*u));
        }
        let basename = Self::first_basename(&show, &absolute, source);
        Some(NativeFileLocator { source: source.to_string(), show_relative_paths: show, absolute_paths: absolute, basename })
    }

    fn first_basename(show: &Vec<Vec<char>>, absolute: &Vec<Vec<char>>, source: &str) -> (r: Option<String>)
        ensures
            ({
                let all = show@.map_values(|p: Vec<char>| p@) + absolute@.map_values(|p: Vec<char>| p@);
                let expected = match first_file_name(all) {
                    Some(n) => Some(n),
                    None => match decode_url_or_path(source@) {
                        Some(d) => basename_of(d),
                        None => None,
                    },
                };
                match r {
                    Some(b) => expected == Some(b@),
                    None => expected is None,
                }
            }),
    {
        let ghost all = show@.map_values(|p: Vec<char>| p@) + absolute@.map_values(|p: Vec<char>| p@);
        let ghost n = show@.len() as int;
        let mut i: usize = 0;
        proof {
            assert(all.skip(0) =~= all);
        }
        while i < show.len()
            invariant
                n == show.len(),
                i <= show.len(),
                all == show@.map_values(|p: Vec<char>| p@) + absolute@.map_values(|p: Vec<char>| p@),
                first_file_name(all) == first_file_name(all.skip(i as int)),
            decreases show.len() - i,
        {
            proof {
                assert(all.skip(i as int)[0] == show@[i as int]@);
                assert(all.skip(i as int).drop_first() =~= all.skip(i + 1));
            }
            match file_name(show[i].as_slice()) {
                Some(name) => return Some(string_of(name.as_slice())),
                None => {},
            }
            i += 1;
        }
        let mut j: usize = 0;
        while j < absolute.len()
            invariant
                n == show.len(),
                j <= absolute.len(),
                all == show@.map_values(|p: Vec<char>| p@) + absolute@.map_values(|p: Vec<char>| p@),
                first_file_name(all) == first_file_name(all.skip(n + j)),
            decreases absolute.len() - j,
        {
            proof {
                assert(all.skip(n + j)[0] == absolute@[j as int]@);
                assert(all.skip(n + j).drop_first() =~= all.skip(n + j + 1));
            }
            match file_name(absolute[j].as_slice()) {
                Some(name) => return Some(string_of(name.as_slice())),
                None => {},
            }
            j += 1;
        }
        proof {
            assert(all.skip(n + j) =~= Seq::<Seq<char>>::empty());
        }
        decoded_basename(source)
    }

    /// Whether two locators denote the same native reference.
    pub fn same_as(&self, other: &NativeFileLocator) -> (r: bool)
        ensures
            r == (self@ == other@),
    {
        let sa = chars_of(self.source.as_str());
        let sb = chars_of(other.source.as_str());
        if !chars_eq(sa.as_slice(), sb.as_slice()) {
            return false;
        }
        if !same_path_lists(&self.show_relative_paths, &other.show_relative_paths) {
            return false;
        }
        if !same_path_lists(&self.absolute_paths, &other.absolute_paths) {
            return false;
        }
        match (&self.basename, &other.basename) {
            (Some(x), Some(y)) => {
                let xc = chars_of(x.as_str());
                let yc = chars_of(y.as_str());
                chars_eq(xc.as_slice(), yc.as_slice())
            },
            (None, None) => true,
            _ => false,
        }
    }

    /// The serialized source used for diagnostics.
    pub fn source(&self) -> (r: &str)
        ensures
            r@ == self@.0,
    {
        self.source.as_str()
    }

    /// The first stored absolute path, kept for inspection only.
    pub fn stored_absolute_path(&self) -> (r: Option<String>)
        ensures
            match r {
                Some(p) => self@.2.len() > 0 && p@ == self@.2[0],
                None => self@.2.len() == 0,
            },
    {
        if self.absolute_paths.len() > 0 {
            Some(string_of(self.absolute_paths[0].as_slice()))
        } else {
            None
        }
    }

    /// The file name the locator refers to, when known.
    pub fn basename(&self) -> (r: Option<&str>)
        ensures
            match r {
                Some(b) => self@.3 == Some(b@),
                None => self@.3 is None,
            },
    {
        match &self.basename {
            Some(b) => Some(b.as_str()),
            None => None,
        }
    }

    /// Whether any local candidate exists to check.
    pub fn has_local_candidate(&self) -> (r: bool)
        ensures
            r == (self@.1.len() > 0 || self@.2.len() > 0),
    {
        self.show_relative_paths.len() > 0 || self.absolute_paths.len() > 0
    }

    /// The local candidates in resolution order: show-relative ones joined
    /// under `show_root`, then stored absolute ones.
    pub fn local_candidates(&self, show_root: Option<&str>) -> (r: Vec<String>)
        ensures
            string_views(r@) == candidates_of(self@, str_opt_view(show_root)),
    {
        let mut c: Vec<Vec<char>> = Vec::new();
        proof {
            assert(c@.map_values(|p: Vec<char>| p@) =~= Seq::<Seq<char>>::empty());
        }
        match show_root {
            Some(root) => {
                let mut joined: Vec<Vec<char>> = Vec::new();
                let rc = chars_of(root);
                let mut i: usize = 0;
                while i < self.show_relative_paths.len()
                    invariant
                        i <= self.show_relative_paths.len(),
                        joined.len() == i,
                        self@.1 == self.show_relative_paths@.map_values(|p: Vec<char>| p@),
                        rc@ == root@,
                        joined@.map_values(|p: Vec<char>| p@) == self@.1.map_values(
                            |p: Seq<char>| crate::naming::path_join(root@, p),
                        ).take(i as int),
                    decreases self.show_relative_paths.len() - i,
                {
                    let mut j: Vec<char> = rc.clone();
                    if j.len() > 0 && j[j.len() - 1] != '/' {
                        j.push('/');
                    }
                    push_all(&mut j, self.show_relative_paths[i].as_slice());
                    proof {
                        assert(j@ =~= crate::naming::path_join(root@, self.show_relative_paths@[i as int]@));
                        assert(self@.1[i as int] == self.show_relative_paths@[i as int]@);
                    }
                    let ghost before = joined@;
                    joined.push(j);
                    i += 1;
                    proof {
                        assert(joined@ == before.push(joined@[i - 1]));
                        assert(joined@.map_values(|p: Vec<char>| p@) =~= self@.1.map_values(
                            |p: Seq<char>| crate::naming::path_join(root@, p),
                        ).take(i as int));
                    }
                }
                proof {
                    assert(self@.1.map_values(|p: Seq<char>| crate::naming::path_join(root@, p)).take(
                        i as int,
                    ) =~= self@.1.map_values(|p: Seq<char>| crate::naming::path_join(root@, p)));
                }
                push_all_unique_exec(&mut c, &joined);
            },
            None => {},
        }
        push_all_unique_exec(&mut c, &self.absolute_paths);
        let mut r: Vec<String> = Vec::new();
        let mut k: usize = 0;
        while k < c.len()
            invariant
                k <= c.len(),
                r.len() == k,
                string_views(r@) == c@.map_values(|p: Vec<char>| p@).take(k as int),
            decreases c.len() - k,
        {
            let ghost before = r@;
            r.push(string_of(c[k].as_slice()));
            k += 1;
            proof {
                assert(r@ == before.push(r@[k - 1]));
                assert(r@[k - 1]@ == c@[k - 1]@);
                assert(string_views(r@) =~= c@.map_values(|p: Vec<char>| p@).take(
                    k as int,
                ));
            }
        }
        proof {
            assert(c@.map_values(|p: Vec<char>| p@).take(c.len() as int) =~= c@.map_values(
                |p: Vec<char>| p@,
            ));
        }
        r
    }

    /// Resolves the preferred local file given the paths known to exist:
    /// the first candidate that exists, else the first candidate as
    /// missing, else unresolved.
    pub fn resolve(&self, show_root: Option<&str>, existing: &Vec<String>) -> (r: NativeFileResolution)
        ensures
            ({
                let c = candidates_of(self@, str_opt_view(show_root));
                let e = string_views(existing@);
                match r {
                    NativeFileResolution::Available(p) => exists|i: int|
                        #[trigger] first_available(c, e, i) && p@ == c[i],
                    NativeFileResolution::Missing(p) => c.len() > 0 && p@ == c[0] && forall|i: int|
                        0 <= i < c.len() ==> !path_in(e, #[trigger] c[i]),
                    NativeFileResolution::Unresolved => c.len() == 0,
                }
            }),
    {
        let candidates = self.local_candidates(show_root);
        let ghost c = string_views(candidates@);
        let ghost rv = str_opt_view(show_root);
        let mut i: usize = 0;
        while i < candidates.len()
            invariant
                i <= candidates.len(),
                c == string_views(candidates@),
                c == candidates_of(self@, rv),
                rv == str_opt_view(show_root),
                forall|k: int| 0 <= k < i ==> !path_in(string_views(existing@), #[trigger] c[k]),
            decreases candidates.len() - i,
        {
            let p = chars_of(candidates[i].as_str());
            if path_listed(existing, p.as_slice()) {
                let found = candidates[i].as_str().to_string();
                proof {
                    assert(first_available(c, string_views(existing@), i as int));
                    assert(found@ == c[i as int]);
                    assert(c == candidates_of(self@, rv));
                }
                return NativeFileResolution::Available(found);
            }
            i += 1;
        }
        if candidates.len() > 0 {
            NativeFileResolution::Missing(candidates[0].as_str().to_string())
        } else {
            NativeFileResolution::Unresolved
        }
    }
}

} // verus!

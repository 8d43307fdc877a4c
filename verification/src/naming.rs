//! Filename rules for presentations and playlists.
//!
//! Display names become filesystem-safe stems by type-specific rules:
//! scripture drops reading prefixes and writes verse colons as `v`, general
//! items drop speaker annotations and turn colons into dashes, songs keep
//! their parentheses. Every rule ends by removing reserved characters and
//! collapsing white space.
use vstd::prelude::*;
use crate::text::{
    chars_of, chars_starts_with, is_alphanumeric, is_whitespace, join_with, string_of, trim,
    trim_chars, unicode_alphanumeric, unicode_white_space,
};
use crate::SlideType;
use crate::native_url::{file_name, file_name_of};
use crate::package::PlaylistItemSummary;
use crate::percent::{percent_decode_strict, strict_decode};
use crate::text::{chars_eq_ignore_ascii_case, eq_ignore_ascii_case, opt_view};

verus! {

// ---------------------------------------------------------------------------
// White space and reserved characters
// ---------------------------------------------------------------------------

/// The maximal runs of non-white-space characters (std `split_whitespace`).
pub open spec fn words(s: Seq<char>) -> Seq<Seq<char>>
    decreases s.len(),
{
    if s.len() == 0 {
        Seq::empty()
    } else {
        let w = words(s.drop_last());
        let c = s.last();
        if unicode_white_space(c) {
            w
        } else if s.len() >= 2 && !unicode_white_space(s[s.len() - 2]) {
            w.update(w.len() - 1, w.last().push(c))
        } else {
            w.push(seq![c])
        }
    }
}

/// Characters a filename may not hold.
pub open spec fn is_reserved(c: char) -> bool {
    c == '/' || c == '\\' || c == ':' || c == '*' || c == '?' || c == '"' || c == '<' || c == '>'
        || c == '|'
}

/// `s` without reserved characters.
pub open spec fn drop_reserved(s: Seq<char>) -> Seq<char>
    decreases s.len(),
{
    if s.len() == 0 {
        Seq::empty()
    } else if is_reserved(s.last()) {
        drop_reserved(s.drop_last())
    } else {
        drop_reserved(s.drop_last()).push(s.last())
    }
}

/// Reserved characters removed, then words joined by single spaces.
pub open spec fn strip_unsafe(s: Seq<char>) -> Seq<char> {
    join_with(words(drop_reserved(s)), ' ')
}

proof fn lemma_words_nonempty(s: Seq<char>)
    requires
        s.len() > 0,
        !unicode_white_space(s.last()),
    ensures
        words(s).len() > 0,
    decreases s.len(),
{
    if s.len() >= 2 && !unicode_white_space(s[s.len() - 2]) {
        assert(s.drop_last().last() == s[s.len() - 2]);
        lemma_words_nonempty(s.drop_last());
    }
}

proof fn lemma_join_extend_last(w: Seq<Seq<char>>, c: char)
    requires
        w.len() > 0,
    ensures
        join_with(w.update(w.len() - 1, w.last().push(c)), ' ') == join_with(w, ' ').push(c),
{
    let u = w.update(w.len() - 1, w.last().push(c));
    assert(u.drop_last() =~= w.drop_last());
    if w.len() == 1 {
        assert(u[0] == w[0].push(c));
    } else {
        assert(join_with(u, ' ') == join_with(u.drop_last(), ' ').push(' ') + u.last());
        assert(join_with(w, ' ') == join_with(w.drop_last(), ' ').push(' ') + w.last());
        assert(join_with(u, ' ') =~= join_with(w, ' ').push(c));
    }
}

proof fn lemma_join_push_word(w: Seq<Seq<char>>, x: Seq<char>)
    ensures
        join_with(w.push(x), ' ') == if w.len() == 0 {
            x
        } else {
            join_with(w, ' ').push(' ') + x
        },
{
    assert(w.push(x).drop_last() =~= w);
}

proof fn lemma_join_empty_iff(w: Seq<Seq<char>>)
    requires
        forall|i: int| 0 <= i < w.len() ==> #[trigger] w[i].len() > 0,
    ensures
        join_with(w, ' ').len() == 0 <==> w.len() == 0,
    decreases w.len(),
{
    if w.len() > 1 {
        lemma_join_empty_iff(w.drop_last());
    }
}

fn is_reserved_char(c: char) -> (r: bool)
    ensures
        r == is_reserved(c),
{
    c == '/' || c == '\\' || c == ':' || c == '*' || c == '?' || c == '"' || c == '<' || c == '>'
        || c == '|'
}

/// Removes reserved characters and collapses white-space runs to single
/// spaces, dropping leading and trailing white space.
pub fn strip_unsafe_chars(name: &[char]) -> (r: Vec<char>)
    ensures
        r@ == strip_unsafe(name@),
{
    // filter
    let mut kept: Vec<char> = Vec::new();
    let mut i: usize = 0;
    while i < name.len()
        invariant
            i <= name.len(),
            kept@ == drop_reserved(name@.take(i as int)),
        decreases name.len() - i,
    {
        proof {
            assert(name@.take(i + 1).drop_last() =~= name@.take(i as int));
        }
        if !is_reserved_char(name[i]) {
            kept.push(name[i]);
        }
        i += 1;
    }
    proof {
        assert(name@.take(name.len() as int) =~= name@);
    }
    // collapse
    let ghost k = kept@;
    let mut out: Vec<char> = Vec::new();
    let mut j: usize = 0;
    while j < kept.len()
        invariant
            j <= kept.len(),
            k == kept@,
            out@ == join_with(words(k.take(j as int)), ' '),
        decreases kept.len() - j,
    {
        let c = kept[j];
        let ghost p = k.take(j as int);
        let ghost p1 = k.take(j + 1);
        proof {
            assert(p1.drop_last() =~= p);
            assert(p1.last() == c);
        }
        if !is_whitespace(c) {
            if j > 0 && !is_whitespace(kept[j - 1]) {
                proof {
                    assert(p1[p1.len() - 2] == kept@[j - 1]);
                    assert(p.last() == kept@[j - 1]);
                    lemma_words_nonempty(p);
                    lemma_join_extend_last(words(p), c);
                }
                out.push(c);
            } else {
                if out.len() > 0 {
                    out.push(' ');
                }
                out.push(c);
                proof {
                    lemma_join_push_word(words(p), seq![c]);
                    assert forall|m: int| 0 <= m < words(p).len() implies #[trigger] words(
                        p,
                    )[m].len() > 0 by {
                        lemma_words_parts_nonempty(p, m);
                    }
                    lemma_join_empty_iff(words(p));
                    if j >= 1 {
                        assert(p1[p1.len() - 2] == kept@[j - 1]);
                    }
                }
            }
        }
        j += 1;
    }
    proof {
        assert(k.take(kept.len() as int) =~= k);
    }
    out
}

proof fn lemma_words_parts_nonempty(s: Seq<char>, m: int)
    requires
        0 <= m < words(s).len(),
    ensures
        words(s)[m].len() > 0,
    decreases s.len(),
{
    if s.len() > 0 {
        let w = words(s.drop_last());
        let c = s.last();
        if unicode_white_space(c) {
            lemma_words_parts_nonempty(s.drop_last(), m);
        } else if s.len() >= 2 && !unicode_white_space(s[s.len() - 2]) {
            assert(s.drop_last().last() == s[s.len() - 2]);
            lemma_words_nonempty(s.drop_last());
            if m < w.len() - 1 {
                lemma_words_parts_nonempty(s.drop_last(), m);
            }
        } else {
            if m < w.len() {
                lemma_words_parts_nonempty(s.drop_last(), m);
            }
        }
    }
}

// ---------------------------------------------------------------------------
// Parenthesised annotations
// ---------------------------------------------------------------------------

/// Characters outside parentheses, reading `s` at nesting depth `d`;
/// unmatched `)` is dropped.
pub open spec fn unparen(s: Seq<char>, d: nat) -> Seq<char>
    decreases s.len(),
{
    if s.len() == 0 {
        Seq::empty()
    } else {
        let c = s[0];
        let rest = s.drop_first();
        if c == '(' {
            unparen(rest, d + 1)
        } else if c == ')' {
            unparen(
                rest,
                if d > 0 {
                    (d - 1) as nat
                } else {
                    0
                },
            )
        } else if d == 0 {
            seq![c] + unparen(rest, 0)
        } else {
            unparen(rest, d)
        }
    }
}

/// Parenthesised annotations removed, then trimmed.
pub open spec fn strip_parens(s: Seq<char>) -> Seq<char> {
    trim(unparen(s, 0))
}

fn strip_parens_chars(name: &[char]) -> (r: Vec<char>)
    ensures
        r@ == strip_parens(name@),
{
    let mut out: Vec<char> = Vec::new();
    let mut depth: usize = 0;
    let mut i: usize = 0;
    proof {
        assert(name@.skip(0) =~= name@);
    }
    while i < name.len()
        invariant
            i <= name.len(),
            depth <= i,
            out@ + unparen(name@.skip(i as int), depth as nat) == unparen(name@, 0),
        decreases name.len() - i,
    {
        let c = name[i];
        let ghost rest = name@.skip(i as int);
        let ghost before = out@;
        proof {
            assert(rest[0] == c);
            assert(rest.drop_first() =~= name@.skip(i + 1));
        }
        if c == '(' {
            depth = depth + 1;
        } else if c == ')' {
            if depth > 0 {
                depth = depth - 1;
            }
        } else if depth == 0 {
            out.push(c);
            proof {
                assert(out@ + unparen(name@.skip(i + 1), 0) =~= before + (seq![c] + unparen(
                    name@.skip(i + 1),
                    0,
                )));
            }
        }
        i += 1;
    }
    proof {
        assert(name@.skip(i as int) =~= Seq::<char>::empty());
        assert(out@ =~= unparen(name@, 0));
    }
    trim_chars(out.as_slice())
}

// ---------------------------------------------------------------------------
// Type-specific rules
// ---------------------------------------------------------------------------

/// ASCII decimal digit.
pub open spec fn is_ascii_digit(c: char) -> bool {
    '0' <= c && c <= '9'
}

/// What follows a reading prefix: a `" - "`, `": "`, `" -"` or `":"`
/// separator is dropped.
pub open spec fn after_prefix(rest: Seq<char>) -> Seq<char> {
    if " - "@.is_prefix_of(rest) {
        rest.skip(3)
    } else if ": "@.is_prefix_of(rest) {
        rest.skip(2)
    } else if " -"@.is_prefix_of(rest) {
        rest.skip(2)
    } else if ":"@.is_prefix_of(rest) {
        rest.skip(1)
    } else {
        rest
    }
}

/// The reference part of a scripture title: the first of the prefixes
/// `Scripture Reading`, `Scripture`, `Reading` that starts it is removed
/// with its separator, and the rest trimmed.
pub open spec fn scripture_reference(v: Seq<char>) -> Seq<char> {
    if "Scripture Reading"@.is_prefix_of(v) {
        trim(after_prefix(v.skip("Scripture Reading"@.len() as int)))
    } else if "Scripture"@.is_prefix_of(v) {
        trim(after_prefix(v.skip("Scripture"@.len() as int)))
    } else if "Reading"@.is_prefix_of(v) {
        trim(after_prefix(v.skip("Reading"@.len() as int)))
    } else {
        v
    }
}

/// A colon between two ASCII digits (a verse separator) written as `v`.
pub open spec fn verse_colons(s: Seq<char>) -> Seq<char> {
    Seq::new(
        s.len(),
        |i: int|
            if s[i] == ':' && i > 0 && is_ascii_digit(s[i - 1]) && i + 1 < s.len()
                && is_ascii_digit(s[i + 1]) {
                'v'
            } else {
                s[i]
            },
    )
}

/// Scripture filename stem.
pub open spec fn sanitize_scripture(name: Seq<char>) -> Seq<char> {
    strip_unsafe(trim(verse_colons(scripture_reference(strip_parens(name)))))
}

/// Colons written as `" - "`: a space before a colon is absorbed, and one
/// space right after it is skipped.
pub open spec fn colon_dash(s: Seq<char>) -> Seq<char>
    decreases s.len(),
{
    if s.len() == 0 {
        Seq::empty()
    } else {
        let r = colon_dash(s.drop_last());
        let c = s.last();
        if c == ' ' && s.len() >= 2 && s[s.len() - 2] == ':' {
            r
        } else if c == ':' {
            (if r.len() > 0 && r.last() == ' ' {
                r.drop_last()
            } else {
                r
            }) + " - "@
        } else {
            r.push(c)
        }
    }
}

/// General filename stem.
pub open spec fn sanitize_general(name: Seq<char>) -> Seq<char> {
    strip_unsafe(trim(colon_dash(strip_parens(name))))
}

/// Filename stem by slide type: songs keep parentheses, scripture and
/// everything else follow their own rules.
pub open spec fn sanitized(name: Seq<char>, slide_type: SlideType) -> Seq<char> {
    match slide_type {
        SlideType::Lyrics => strip_unsafe(name),
        SlideType::Scripture => sanitize_scripture(name),
        _ => sanitize_general(name),
    }
}

fn strip_reading_prefix(v: &[char]) -> (r: Vec<char>)
    ensures
        r@ == scripture_reference(v@),
{
    let p1 = chars_of("Scripture Reading");
    let p2 = chars_of("Scripture");
    let p3 = chars_of("Reading");
    let skip: usize = if chars_starts_with(v, p1.as_slice()) {
        p1.len()
    } else if chars_starts_with(v, p2.as_slice()) {
        p2.len()
    } else if chars_starts_with(v, p3.as_slice()) {
        p3.len()
    } else {
        let mut copy: Vec<char> = Vec::new();
        let mut i: usize = 0;
        while i < v.len()
            invariant
                i <= v.len(),
                copy@ == v@.take(i as int),
            decreases v.len() - i,
        {
            copy.push(v[i]);
            i += 1;
        }
        proof {
            assert(v@.take(v.len() as int) =~= v@);
        }
        return copy;
    };
    let mut rest: Vec<char> = Vec::new();
    let mut i: usize = skip;
    while i < v.len()
        invariant
            skip <= i <= v.len(),
            rest@ == v@.subrange(skip as int, i as int),
        decreases v.len() - i,
    {
        rest.push(v[i]);
        i += 1;
    }
    proof {
        assert(rest@ =~= v@.skip(skip as int));
    }
    let s1 = chars_of(" - ");
    let s2 = chars_of(": ");
    let s3 = chars_of(" -");
    let s4 = chars_of(":");
    let cut: usize = if chars_starts_with(rest.as_slice(), s1.as_slice()) {
        3
    } else if chars_starts_with(rest.as_slice(), s2.as_slice()) {
        2
    } else if chars_starts_with(rest.as_slice(), s3.as_slice()) {
        2
    } else if chars_starts_with(rest.as_slice(), s4.as_slice()) {
        1
    } else {
        0
    };
    proof {
        reveal_strlit(" - ");
        reveal_strlit(": ");
        reveal_strlit(" -");
        reveal_strlit(":");
    }
    let mut tail: Vec<char> = Vec::new();
    let mut k: usize = cut;
    while k < rest.len()
        invariant
            cut <= k <= rest.len(),
            tail@ == rest@.subrange(cut as int, k as int),
        decreases rest.len() - k,
    {
        tail.push(rest[k]);
        k += 1;
    }
    proof {
        assert(tail@ =~= after_prefix(rest@));
    }
    trim_chars(tail.as_slice())
}

fn is_digit_char(c: char) -> (r: bool)
    ensures
        r == is_ascii_digit(c),
{
    '0' <= c && c <= '9'
}

fn replace_verse_colons(s: &[char]) -> (r: Vec<char>)
    ensures
        r@ == verse_colons(s@),
{
    let mut out: Vec<char> = Vec::new();
    let mut i: usize = 0;
    while i < s.len()
        invariant
            i <= s.len(),
            out@ == verse_colons(s@).take(i as int),
        decreases s.len() - i,
    {
        let c = s[i];
        if c == ':' && i > 0 && is_digit_char(s[i - 1]) && i + 1 < s.len() && is_digit_char(
            s[i + 1],
        ) {
            out.push('v');
        } else {
            out.push(c);
        }
        i += 1;
        proof {
            assert(out@ =~= verse_colons(s@).take(i as int));
        }
    }
    proof {
        assert(verse_colons(s@).take(s.len() as int) =~= verse_colons(s@));
    }
    out
}

fn colon_dash_chars(s: &[char]) -> (r: Vec<char>)
    ensures
        r@ == colon_dash(s@),
{
    let mut out: Vec<char> = Vec::new();
    let mut i: usize = 0;
    while i < s.len()
        invariant
            i <= s.len(),
            out@ == colon_dash(s@.take(i as int)),
        decreases s.len() - i,
    {
        let c = s[i];
        let ghost p1 = s@.take(i + 1);
        proof {
            assert(p1.drop_last() =~= s@.take(i as int));
            assert(p1.last() == c);
            if i >= 1 {
                assert(p1[p1.len() - 2] == s@[i - 1]);
            }
        }
        if c == ' ' && i > 0 && s[i - 1] == ':' {
        } else if c == ':' {
            if out.len() > 0 && out[out.len() - 1] == ' ' {
                out.pop();
            }
            out.push(' ');
            out.push('-');
            out.push(' ');
            proof {
                reveal_strlit(" - ");
                assert(out@ =~= colon_dash(p1));
            }
        } else {
            out.push(c);
        }
        i += 1;
    }
    proof {
        assert(s@.take(s.len() as int) =~= s@);
    }
    out
}

/// Sanitizes a display name into a filename stem by the rules of its type.
pub fn sanitize_filename(name: &str, slide_type: SlideType) -> (r: String)
    ensures
        r@ == sanitized(name@, slide_type),
{
    let chars = chars_of(name);
    let out = match slide_type {
        SlideType::Lyrics => strip_unsafe_chars(chars.as_slice()),
        SlideType::Scripture => {
            let v = strip_parens_chars(chars.as_slice());
            let reference = strip_reading_prefix(v.as_slice());
            let verses = replace_verse_colons(reference.as_slice());
            let trimmed = trim_chars(verses.as_slice());
            strip_unsafe_chars(trimmed.as_slice())
        },
        _ => {
            let v = strip_parens_chars(chars.as_slice());
            let dashed = colon_dash_chars(v.as_slice());
            let trimmed = trim_chars(dashed.as_slice());
            strip_unsafe_chars(trimmed.as_slice())
        },
    };
    string_of(out.as_slice())
}

/// Failure to derive a safe, non-empty presentation filename stem.
#[derive(Debug, Clone, Copy, PartialEq, Eq)]
pub enum CanonicalPresentationNameError {
    /// Normalization left no name.
    Empty,
}

/// The checked canonical filename stem of a presentation: an error when the
/// rules leave nothing.
pub fn canonical_presentation_name(name: &str, slide_type: SlideType) -> (r: Result<
    String,
    CanonicalPresentationNameError,
>)
    ensures
        match r {
            Ok(s) => s@ == sanitized(name@, slide_type) && s@.len() > 0,
            Err(e) => sanitized(name@, slide_type).len() == 0 && e
                == CanonicalPresentationNameError::Empty,
        },
{
    let normalized = sanitize_filename(name, slide_type);
    let v = chars_of(normalized.as_str());
    if v.len() == 0 {
        Err(CanonicalPresentationNameError::Empty)
    } else {
        Ok(normalized)
    }
}

// ---------------------------------------------------------------------------
// Playlist output paths
// ---------------------------------------------------------------------------

/// A playlist-name character kept in its output filename.
pub open spec fn playlist_name_char(c: char) -> char {
    if unicode_alphanumeric(c) || c == ' ' || c == '-' || c == ',' || c == '(' || c == ')' {
        c
    } else {
        '_'
    }
}

/// `dir` joined with `file` as std `Path::join` does for a relative
/// `file` with no root.
pub open spec fn path_join(dir: Seq<char>, file: Seq<char>) -> Seq<char> {
    if dir.len() == 0 || dir.last() == '/' {
        dir + file
    } else {
        dir.push('/') + file
    }
}

/// The output path of a playlist: every character outside letters, digits
/// and ` -,()` becomes `_`, and `.proplaylist` is appended.
pub open spec fn playlist_path(dir: Seq<char>, name: Seq<char>) -> Seq<char> {
    path_join(dir, name.map_values(|c: char| playlist_name_char(c)) + ".proplaylist"@)
}

/// The canonical `.proplaylist` output path for a playlist name.
pub fn playlist_output_path(output_directory: &str, name: &str) -> (r: String)
    ensures
        r@ == playlist_path(output_directory@, name@),
{
    let chars = chars_of(name);
    let mut out = chars_of(output_directory);
    let ghost dir = out@;
    if out.len() > 0 && out[out.len() - 1] != '/' {
        out.push('/');
    }
    let ghost base = out@;
    let mut i: usize = 0;
    while i < chars.len()
        invariant
            i <= chars.len(),
            chars@ == name@,
            out@ == base + name@.map_values(|c: char| playlist_name_char(c)).take(i as int),
        decreases chars.len() - i,
    {
        let c = chars[i];
        if is_alphanumeric(c) || c == ' ' || c == '-' || c == ',' || c == '(' || c == ')' {
            out.push(c);
        } else {
            out.push('_');
        }
        i += 1;
        proof {
            assert(out@ =~= base + name@.map_values(|c: char| playlist_name_char(c)).take(
                i as int,
            ));
        }
    }
    let ext = chars_of(".proplaylist");
    crate::text::push_all(&mut out, ext.as_slice());
    proof {
        assert(name@.map_values(|c: char| playlist_name_char(c)).take(chars.len() as int)
            =~= name@.map_values(|c: char| playlist_name_char(c)));
        assert(out@ =~= playlist_path(output_directory@, name@));
    }
    string_of(out.as_slice())
}


// ---------------------------------------------------------------------------
// Linked presentation file names
// ---------------------------------------------------------------------------

/// A path separator of either platform.
pub open spec fn is_separator(c: char) -> bool {
    c == '/' || c == '\\'
}

/// The text without its trailing separators.
pub open spec fn trim_trailing_separators(s: Seq<char>) -> Seq<char>
    decreases s.len(),
{
    if s.len() > 0 && is_separator(s.last()) {
        trim_trailing_separators(s.drop_last())
    } else {
        s
    }
}

/// The text after the last separator.
pub open spec fn last_segment(s: Seq<char>) -> Seq<char>
    decreases s.len(),
{
    if s.len() == 0 || is_separator(s.last()) {
        Seq::empty()
    } else {
        last_segment(s.drop_last()).push(s.last())
    }
}

/// The position of the last `.`.
pub open spec fn last_dot(s: Seq<char>) -> Option<int>
    decreases s.len(),
{
    if s.len() == 0 {
        None
    } else if s.last() == '.' {
        Some(s.len() - 1)
    } else {
        last_dot(s.drop_last())
    }
}

/// The extension of a file name as std `Path::extension` reads it: the
/// text after the last `.`, unless the only `.` starts the name.
pub open spec fn extension_of(name: Seq<char>) -> Option<Seq<char>> {
    match last_dot(name) {
        Some(i) => if i == 0 {
            None
        } else {
            Some(name.skip(i + 1))
        },
        None => None,
    }
}

/// The decoded presentation file name a path links: its last segment,
/// percent-decoded strictly, when that names a `.pro` file (extension
/// compared ASCII case-insensitively).
pub open spec fn presentation_filename_of(path: Seq<char>) -> Option<Seq<char>> {
    let seg = last_segment(trim_trailing_separators(trim(path)));
    if seg.len() == 0 {
        None
    } else {
        match strict_decode(seg) {
            Some(f) => match file_name_of(f) {
                Some(n) => match extension_of(n) {
                    Some(e) => if eq_ignore_ascii_case(e, "pro"@) {
                        Some(f)
                    } else {
                        None
                    },
                    None => None,
                },
                None => None,
            },
            None => None,
        }
    }
}

/// The file name a playlist item links: from its first relative locator
/// (local, storage, external), else from its absolute URL.
pub open spec fn linked_filename_of(item: PlaylistItemSummary) -> Option<Seq<char>> {
    let relative = match item.local_relative_path {
        Some(p) => Some(p),
        None => match item.storage_relative_path {
            Some(p) => Some(p),
            None => item.external_relative_path,
        },
    };
    let from_relative = match relative {
        Some(p) => presentation_filename_of(p@),
        None => None,
    };
    match from_relative {
        Some(f) => Some(f),
        None => match item.absolute_string {
            Some(a) => presentation_filename_of(a@),
            None => None,
        },
    }
}

pub(crate) fn extension_is_pro(name: &[char]) -> (r: bool)
    ensures
        r == (extension_of(name@) matches Some(e) && eq_ignore_ascii_case(e, "pro"@)),
{
    let mut k = name.len();
    proof {
        assert(name@.take(k as int) =~= name@);
    }
    while k > 0 && name[k - 1] != '.'
        invariant
            k <= name.len(),
            last_dot(name@) == last_dot(name@.take(k as int)),
        decreases k,
    {
        proof {
            assert(name@.take(k as int).drop_last() =~= name@.take(k - 1));
        }
        k -= 1;
    }
    if k <= 1 {
        return false;
    }
    proof {
        assert(name@.take(k as int).last() == '.');
        assert(last_dot(name@) == Some(k - 1));
    }
    let mut ext: Vec<char> = Vec::new();
    let mut q = k;
    while q < name.len()
        invariant
            k <= q <= name.len(),
            ext@ == name@.subrange(k as int, q as int),
        decreases name.len() - q,
    {
        ext.push(name[q]);
        q += 1;
    }
    proof {
        assert(ext@ =~= name@.skip(k as int));
    }
    let pro = chars_of("pro");
    chars_eq_ignore_ascii_case(ext.as_slice(), pro.as_slice())
}

/// The decoded presentation file name that a path links, if it names a
/// `.pro` file.
pub fn presentation_filename(path: &str) -> (r: Option<String>)
    ensures
        opt_view(r) == presentation_filename_of(path@),
{
    let t = trim_chars(chars_of(path).as_slice());
    let mut end = t.len();
    proof {
        assert(t@.take(end as int) =~= t@);
    }
    while end > 0 && (t[end - 1] == '/' || t[end - 1] == '\\')
        invariant
            end <= t.len(),
            trim_trailing_separators(t@) == trim_trailing_separators(t@.take(end as int)),
        decreases end,
    {
        proof {
            assert(t@.take(end as int).drop_last() =~= t@.take(end - 1));
        }
        end -= 1;
    }
    let ghost stem = t@.take(end as int);
    proof {
        assert(trim_trailing_separators(t@) == stem);
    }
    let mut start = end;
    proof {
        assert(stem.take(start as int) =~= stem);
        assert(stem.subrange(start as int, end as int) =~= Seq::<char>::empty());
    }
    while start > 0 && t[start - 1] != '/' && t[start - 1] != '\\'
        invariant
            start <= end <= t.len(),
            stem == t@.take(end as int),
            last_segment(stem) == last_segment(stem.take(start as int)) + stem.subrange(
                start as int,
                end as int,
            ),
        decreases start,
    {
        proof {
            assert(stem.take(start as int).drop_last() =~= stem.take(start - 1));
            assert(stem.take(start as int).last() == t@[start - 1]);
            assert(stem.subrange(start - 1, end as int) =~= seq![t@[start - 1]] + stem.subrange(
                start as int,
                end as int,
            ));
        }
        start -= 1;
    }
    proof {
        assert(last_segment(stem.take(start as int)) =~= Seq::<char>::empty());
    }
    if start == end {
        return None;
    }
    let mut seg: Vec<char> = Vec::new();
    let mut q = start;
    while q < end
        invariant
            start <= q <= end <= t.len(),
            seg@ == t@.subrange(start as int, q as int),
        decreases end - q,
    {
        seg.push(t[q]);
        q += 1;
    }
    proof {
        assert(seg@ =~= stem.subrange(start as int, end as int));
    }
    let seg_s = string_of(seg.as_slice());
    let decoded = match percent_decode_strict(seg_s.as_str()) {
        Some(d) => d,
        None => return None,
    };
    let dv = chars_of(decoded.as_str());
    match file_name(dv.as_slice()) {
        Some(n) => {
            if extension_is_pro(n.as_slice()) {
                Some(decoded)
            } else {
                None
            }
        },
        None => None,
    }
}

/// The archive file name linked by a decoded presentation item.
pub fn linked_presentation_filename(item: &PlaylistItemSummary) -> (r: Option<String>)
    ensures
        opt_view(r) == linked_filename_of(*item),
{
    let relative = match &item.local_relative_path {
        Some(p) => Some(p),
        None => match &item.storage_relative_path {
            Some(p) => Some(p),
            None => match &item.external_relative_path {
                Some(p) => Some(p),
                None => None,
            },
        },
    };
    let from_relative = match relative {
        Some(p) => presentation_filename(p.as_str()),
        None => None,
    };
    match from_relative {
        Some(f) => Some(f),
        None => match &item.absolute_string {
            Some(a) => presentation_filename(a.as_str()),
            None => None,
        },
    }
}

// ---------------------------------------------------------------------------
// Law: stems hold no reserved filename character
// ---------------------------------------------------------------------------

/// A character a filename stem may hold: none of `/ \ : * ? " < > |`.
pub open spec fn filename_safe_char(c: char) -> bool {
    c != '/' && c != '\\' && c != ':' && c != '*' && c != '?' && c != '"' && c != '<' && c != '>' && c != '|'
}

proof fn lemma_drop_reserved_safe(s: Seq<char>)
    ensures
        forall|k: int| 0 <= k < drop_reserved(s).len() ==> filename_safe_char(#[trigger] drop_reserved(s)[k]),
    decreases s.len(),
{
    if s.len() > 0 {
        lemma_drop_reserved_safe(s.drop_last());
        let d = drop_reserved(s.drop_last());
        if !is_reserved(s.last()) {
            assert forall|k: int| 0 <= k < d.push(s.last()).len() implies filename_safe_char(#[trigger] d.push(s.last())[k]) by {
                if k < d.len() {
                    assert(d.push(s.last())[k] == d[k]);
                }
            }
        }
    }
}

proof fn lemma_words_safe(s: Seq<char>)
    requires
        forall|k: int| 0 <= k < s.len() ==> filename_safe_char(#[trigger] s[k]),
    ensures
        forall|i: int, j: int|
            0 <= i < words(s).len() && 0 <= j < words(s)[i].len() ==> filename_safe_char(#[trigger] words(s)[i][j]),
    decreases s.len(),
{
    if s.len() > 0 {
        let t = s.drop_last();
        assert forall|k: int| 0 <= k < t.len() implies filename_safe_char(#[trigger] t[k]) by {
            assert(t[k] == s[k]);
        }
        lemma_words_safe(t);
        let w = words(t);
        let c = s.last();
        assert(filename_safe_char(c));
        if unicode_white_space(c) {
        } else if s.len() >= 2 && !unicode_white_space(s[s.len() - 2]) {
            assert(s[s.len() - 2] == t.last());
            lemma_words_nonempty(t);
            let u = w.update(w.len() - 1, w.last().push(c));
            assert forall|i: int, j: int| 0 <= i < u.len() && 0 <= j < u[i].len() implies filename_safe_char(#[trigger] u[i][j]) by {
                if i == w.len() - 1 {
                    if j < w.last().len() {
                        assert(u[i][j] == w[i][j]);
                    }
                } else {
                    assert(u[i] == w[i]);
                }
            }
        } else {
            let u = w.push(seq![c]);
            assert forall|i: int, j: int| 0 <= i < u.len() && 0 <= j < u[i].len() implies filename_safe_char(#[trigger] u[i][j]) by {
                if i < w.len() {
                    assert(u[i] == w[i]);
                }
            }
        }
    }
}

proof fn lemma_join_safe(w: Seq<Seq<char>>)
    requires
        forall|i: int, j: int| 0 <= i < w.len() && 0 <= j < w[i].len() ==> filename_safe_char(#[trigger] w[i][j]),
    ensures
        forall|k: int| 0 <= k < join_with(w, ' ').len() ==> filename_safe_char(#[trigger] join_with(w, ' ')[k]),
    decreases w.len(),
{
    if w.len() == 1 {
        assert forall|k: int| 0 <= k < join_with(w, ' ').len() implies filename_safe_char(#[trigger] join_with(w, ' ')[k]) by {
            assert(join_with(w, ' ')[k] == w[0][k]);
        }
    } else if w.len() > 1 {
        let d = w.drop_last();
        assert forall|i: int, j: int| 0 <= i < d.len() && 0 <= j < d[i].len() implies filename_safe_char(#[trigger] d[i][j]) by {
            assert(d[i] == w[i]);
        }
        lemma_join_safe(d);
        let p = join_with(d, ' ').push(' ');
        let x = w.last();
        assert(join_with(w, ' ') == p + x);
        assert forall|k: int| 0 <= k < (p + x).len() implies filename_safe_char(#[trigger] (p + x)[k]) by {
            if k < p.len() - 1 {
                assert((p + x)[k] == join_with(d, ' ')[k]);
            } else if k == p.len() - 1 {
                assert((p + x)[k] == ' ');
            } else {
                assert((p + x)[k] == w[w.len() - 1][k - p.len()]);
            }
        }
    }
}

/// Law: whatever the display name and slide type, the sanitized filename
/// stem holds none of the characters `/ \ : * ? " < > |`.
pub proof fn law_sanitized_stem_has_no_reserved_char(name: Seq<char>, slide_type: SlideType)
    ensures
        forall|k: int| 0 <= k < sanitized(name, slide_type).len() ==> {
            let c = #[trigger] sanitized(name, slide_type)[k];
            c != '/' && c != '\\' && c != ':' && c != '*' && c != '?' && c != '"' && c != '<' && c != '>' && c != '|'
        },
{
    let x = match slide_type {
        SlideType::Lyrics => name,
        SlideType::Scripture => trim(verse_colons(scripture_reference(strip_parens(name)))),
        _ => trim(colon_dash(strip_parens(name))),
    };
    assert(sanitized(name, slide_type) == strip_unsafe(x));
    lemma_drop_reserved_safe(x);
    lemma_words_safe(drop_reserved(x));
    lemma_join_safe(words(drop_reserved(x)));
    assert forall|k: int| 0 <= k < sanitized(name, slide_type).len() implies filename_safe_char(
        #[trigger] sanitized(name, slide_type)[k],
    ) by {}
}

} // verus!

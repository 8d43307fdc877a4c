//! Plain-text extraction from RTF slide data.
//!
//! The extractor walks the RTF once, tracking for every group whether it is
//! an ignored destination (font and colour tables, `\*` groups) and how many
//! fallback characters follow a `\u` escape. Visible text is what remains
//! outside ignored groups; line structure comes from `\par`, `\line` and
//! escaped line breaks only.
use vstd::prelude::*;
use crate::text::{
    decimal, digit_char, chars_of, join_with, split_char, split_chars, string_of, trim, trim_chars, trim_end,
    trim_end_index,
};

verus! {

/// Per-group parser state: inside an ignored destination, and the number of
/// fallback characters after `\uN`.
pub type GroupState = (bool, nat);

/// The state of a new document.
pub open spec fn initial_group_state() -> GroupState {
    (false, 1)
}

/// Scanner configuration after some input: position, extracted text,
/// current group state, saved states of enclosing groups, and whether the
/// position is just after a `{`.
pub type ScanState = (int, Seq<char>, GroupState, Seq<GroupState>, bool);

pub open spec fn is_ascii_alpha(c: char) -> bool {
    ('a' <= c && c <= 'z') || ('A' <= c && c <= 'Z')
}

pub open spec fn is_ascii_digit(c: char) -> bool {
    '0' <= c && c <= '9'
}

/// Value of a hexadecimal digit.
pub open spec fn hex_digit(c: char) -> Option<nat> {
    if '0' <= c && c <= '9' {
        Some((c as u32 - 48) as nat)
    } else if 'a' <= c && c <= 'f' {
        Some((c as u32 - 87) as nat)
    } else if 'A' <= c && c <= 'F' {
        Some((c as u32 - 55) as nat)
    } else {
        None
    }
}

/// Windows-1252 decoding of one byte.
pub open spec fn cp1252(b: u8) -> char {
    if b == 0x80 {
        '\u{20ac}'
    } else if b == 0x82 {
        '\u{201a}'
    } else if b == 0x83 {
        '\u{0192}'
    } else if b == 0x84 {
        '\u{201e}'
    } else if b == 0x85 {
        '\u{2026}'
    } else if b == 0x86 {
        '\u{2020}'
    } else if b == 0x87 {
        '\u{2021}'
    } else if b == 0x88 {
        '\u{02c6}'
    } else if b == 0x89 {
        '\u{2030}'
    } else if b == 0x8a {
        '\u{0160}'
    } else if b == 0x8b {
        '\u{2039}'
    } else if b == 0x8c {
        '\u{0152}'
    } else if b == 0x8e {
        '\u{017d}'
    } else if b == 0x91 {
        '\u{2018}'
    } else if b == 0x92 {
        '\u{2019}'
    } else if b == 0x93 {
        '\u{201c}'
    } else if b == 0x94 {
        '\u{201d}'
    } else if b == 0x95 {
        '\u{2022}'
    } else if b == 0x96 {
        '\u{2013}'
    } else if b == 0x97 {
        '\u{2014}'
    } else if b == 0x98 {
        '\u{02dc}'
    } else if b == 0x99 {
        '\u{2122}'
    } else if b == 0x9a {
        '\u{0161}'
    } else if b == 0x9b {
        '\u{203a}'
    } else if b == 0x9c {
        '\u{0153}'
    } else if b == 0x9e {
        '\u{017e}'
    } else if b == 0x9f {
        '\u{0178}'
    } else {
        b as char
    }
}

/// Destinations whose content is never visible text.
pub open spec fn is_ignored_destination(w: Seq<char>) -> bool {
    ||| w == "fonttbl"@
    ||| w == "colortbl"@
    ||| w == "expandedcolortbl"@
    ||| w == "stylesheet"@
    ||| w == "info"@
    ||| w == "generator"@
    ||| w == "listtable"@
    ||| w == "listoverridetable"@
    ||| w == "datastore"@
    ||| w == "themedata"@
    ||| w == "colorschememapping"@
    ||| w == "header"@
    ||| w == "footer"@
    ||| w == "pict"@
    ||| w == "object"@
}

/// End of the run of ASCII letters starting at `i`.
pub open spec fn letters_end(c: Seq<char>, i: int) -> int
    decreases c.len() - i,
{
    if i < 0 || i >= c.len() || !is_ascii_alpha(c[i]) {
        i
    } else {
        letters_end(c, i + 1)
    }
}

/// End of the run of ASCII digits starting at `i`.
pub open spec fn digits_end(c: Seq<char>, i: int) -> int
    decreases c.len() - i,
{
    if i < 0 || i >= c.len() || !is_ascii_digit(c[i]) {
        i
    } else {
        digits_end(c, i + 1)
    }
}

/// Decimal value of the digits `c[a..b]`.
pub open spec fn digits_value(c: Seq<char>, a: int, b: int) -> nat
    decreases b - a,
{
    if b <= a {
        0
    } else {
        digits_value(c, a, b - 1) * 10 + (c[b - 1] as u32 - 48) as nat
    }
}

/// The fallback characters skipped after `\uN`: up to `n` characters or
/// escapes, stopping at a group boundary or the end.
pub open spec fn skip_fallback(c: Seq<char>, i: int, n: nat) -> int
    decreases n,
{
    if n == 0 || i >= c.len() || c[i] == '{' || c[i] == '}' {
        i
    } else if c[i] != '\\' {
        skip_fallback(c, i + 1, (n - 1) as nat)
    } else if i + 1 >= c.len() {
        i + 1
    } else if c[i + 1] == '\'' {
        skip_fallback(
            c,
            if i + 4 < c.len() {
                i + 4
            } else {
                c.len() as int
            },
            (n - 1) as nat,
        )
    } else {
        skip_fallback(c, i + 2, (n - 1) as nat)
    }
}

/// The character a `\uN` parameter denotes: negative values count from
/// 65536.
pub open spec fn unicode_param_char(v: int) -> Option<char> {
    let u = if v < 0 {
        v + 65536
    } else {
        v
    };
    if 0 <= u <= 0x10FFFF && !(0xD800 <= u <= 0xDFFF) {
        Some((u as u32) as char)
    } else {
        None
    }
}

/// Visible text of an escaped non-letter `\c`.
pub open spec fn escaped_text(e: char) -> Seq<char> {
    if e == '\\' || e == '{' || e == '}' {
        seq![e]
    } else if e == '\n' || e == '\r' {
        seq!['\n']
    } else if e == '~' {
        seq![' ']
    } else if e == '-' {
        seq!['\u{00ad}']
    } else if e == '_' {
        seq!['\u{2011}']
    } else {
        Seq::empty()
    }
}

/// Visible text of a control word without parameter effects.
pub open spec fn word_text(w: Seq<char>) -> Seq<char> {
    if w == "par"@ || w == "line"@ {
        seq!['\n']
    } else if w == "tab"@ {
        seq!['\t']
    } else if w == "emdash"@ {
        seq!['\u{2014}']
    } else if w == "endash"@ {
        seq!['\u{2013}']
    } else if w == "bullet"@ {
        seq!['\u{2022}']
    } else {
        Seq::empty()
    }
}

/// The numeric parameter of a control word whose letters end at `we`: an
/// optional `-` and digits; an out-of-range magnitude reads as zero.
pub open spec fn word_param(c: Seq<char>, we: int) -> Option<int> {
    let signed = we < c.len() && c[we] == '-';
    let ns = if signed {
        we + 1
    } else {
        we
    };
    let ne = digits_end(c, ns);
    if ne == ns {
        None
    } else {
        let v = digits_value(c, ns, ne);
        let m: int = if v <= i32::MAX {
            v as int
        } else {
            0
        };
        Some(
            if signed {
                -m
            } else {
                m
            },
        )
    }
}

/// Position after a control word's letters, parameter and one delimiting
/// space.
pub open spec fn word_end(c: Seq<char>, i: int) -> int {
    let we = letters_end(c, i);
    let ns = if we < c.len() && c[we] == '-' {
        we + 1
    } else {
        we
    };
    let ne = digits_end(c, ns);
    if ne < c.len() && c[ne] == ' ' {
        ne + 1
    } else {
        ne
    }
}

/// One control sequence, `i` just past its backslash: the new position,
/// text, group state and group-start flag.
pub open spec fn control_step(c: Seq<char>, i: int, text: Seq<char>, st: GroupState, gs: bool) -> (
    int,
    Seq<char>,
    GroupState,
    bool,
) {
    if i >= c.len() {
        (i, text, st, gs)
    } else if c[i] == '*' {
        (i + 1, text, (st.0 || gs, st.1), false)
    } else if c[i] == '\'' {
        let h1 = if i + 1 < c.len() {
            match hex_digit(c[i + 1]) {
                Some(v) => v,
                None => 0,
            }
        } else {
            0
        };
        let p1 = if i + 1 < c.len() {
            i + 2
        } else {
            i + 1
        };
        let h2 = if p1 < c.len() {
            match hex_digit(c[p1]) {
                Some(v) => v,
                None => 0,
            }
        } else {
            0
        };
        let p2 = if p1 < c.len() {
            p1 + 1
        } else {
            p1
        };
        let b = (h1 * 16 + h2) as u8;
        (p2, if st.0 {
            text
        } else {
            text.push(cp1252(b))
        }, st, false)
    } else if !is_ascii_alpha(c[i]) {
        let e = c[i];
        let skip_lf = !st.0 && e == '\r' && i + 1 < c.len() && c[i + 1] == '\n';
        (
            if skip_lf {
                i + 2
            } else {
                i + 1
            },
            if st.0 {
                text
            } else {
                text + escaped_text(e)
            },
            st,
            false,
        )
    } else {
        let we = letters_end(c, i);
        let w = c.subrange(i, we);
        let after = word_end(c, i);
        let param = word_param(c, we);
        let skip = st.0 || (gs && is_ignored_destination(w));
        if skip {
            (after, text, (true, st.1), false)
        } else if w == "uc"@ {
            (after, text, (false, match param {
                Some(v) => if v >= 0 {
                    v as nat
                } else {
                    st.1
                },
                None => st.1,
            }), false)
        } else if w == "u"@ {
            (skip_fallback(c, after, st.1), match param {
                Some(v) => match unicode_param_char(v) {
                    Some(ch) => text.push(ch),
                    None => text,
                },
                None => text,
            }, st, false)
        } else {
            (after, text + word_text(w), st, false)
        }
    }
}

/// One scanner step at position `s.0 < c.len()`.
pub open spec fn scan_step(c: Seq<char>, s: ScanState) -> ScanState {
    let (i, text, st, stack, gs) = s;
    let ch = c[i];
    if ch == '{' {
        (i + 1, text, st, stack.push(st), true)
    } else if ch == '}' {
        (
            i + 1,
            text,
            if stack.len() > 0 {
                stack.last()
            } else {
                initial_group_state()
            },
            if stack.len() > 0 {
                stack.drop_last()
            } else {
                stack
            },
            false,
        )
    } else if ch == '\\' {
        let (j, t, st2, gs2) = control_step(c, i + 1, text, st, gs);
        (j, t, st2, stack, gs2)
    } else {
        (i + 1, if !st.0 && ch != '\r' && ch != '\n' {
            text.push(ch)
        } else {
            text
        }, st, stack, false)
    }
}

pub proof fn lemma_letters_end(c: Seq<char>, i: int)
    requires
        0 <= i,
    ensures
        i <= letters_end(c, i),
        letters_end(c, i) <= c.len() || letters_end(c, i) == i,
        forall|k: int| i <= k < letters_end(c, i) ==> is_ascii_alpha(#[trigger] c[k]),
        letters_end(c, i) < c.len() ==> !is_ascii_alpha(c[letters_end(c, i)]),
    decreases c.len() - i,
{
    if i < c.len() && is_ascii_alpha(c[i]) {
        lemma_letters_end(c, i + 1);
    }
}

pub proof fn lemma_digits_end(c: Seq<char>, i: int)
    requires
        0 <= i,
    ensures
        i <= digits_end(c, i),
        digits_end(c, i) <= c.len() || digits_end(c, i) == i,
        forall|k: int| i <= k < digits_end(c, i) ==> is_ascii_digit(#[trigger] c[k]),
        digits_end(c, i) < c.len() ==> !is_ascii_digit(c[digits_end(c, i)]),
    decreases c.len() - i,
{
    if i < c.len() && is_ascii_digit(c[i]) {
        lemma_digits_end(c, i + 1);
    }
}

pub proof fn lemma_skip_fallback(c: Seq<char>, i: int, n: nat)
    requires
        0 <= i,
    ensures
        i <= skip_fallback(c, i, n),
        i <= c.len() ==> skip_fallback(c, i, n) <= c.len(),
    decreases n,
{
    if n == 0 || i >= c.len() || c[i] == '{' || c[i] == '}' {
    } else if c[i] != '\\' {
        lemma_skip_fallback(c, i + 1, (n - 1) as nat);
    } else if i + 1 >= c.len() {
    } else if c[i + 1] == '\'' {
        lemma_skip_fallback(
            c,
            if i + 4 < c.len() {
                i + 4
            } else {
                c.len() as int
            },
            (n - 1) as nat,
        );
    } else {
        lemma_skip_fallback(c, i + 2, (n - 1) as nat);
    }
}

/// A control step never moves backwards, and stays within the input.
pub proof fn lemma_control_step_advances(c: Seq<char>, i: int, text: Seq<char>, st: GroupState, gs: bool)
    requires
        0 <= i <= c.len(),
    ensures
        i <= control_step(c, i, text, st, gs).0 <= c.len(),
{
    if i < c.len() && is_ascii_alpha(c[i]) && c[i] != '*' && c[i] != '\'' {
        lemma_letters_end(c, i);
        let we = letters_end(c, i);
        let ns = if we < c.len() && c[we] == '-' {
            we + 1
        } else {
            we
        };
        lemma_digits_end(c, ns);
        let after = word_end(c, i);
        lemma_skip_fallback(c, after, st.1);
    }
}

/// The scanner run from `s` to the end of the input.
pub open spec fn scan(c: Seq<char>, s: ScanState) -> ScanState
    decreases c.len() - s.0,
{
    if s.0 < 0 || s.0 >= c.len() {
        s
    } else {
        proof {
            lemma_control_step_advances(c, s.0 + 1, s.1, s.2, s.4);
        }
        scan(c, scan_step(c, s))
    }
}

/// The raw text the scanner extracts from a whole document.
pub open spec fn raw_text(c: Seq<char>) -> Seq<char> {
    scan(c, (0, Seq::empty(), initial_group_state(), Seq::empty(), false)).1
}

// ---------------------------------------------------------------------------
// The scanner
// ---------------------------------------------------------------------------

fn ascii_alpha(c: char) -> (r: bool)
    ensures
        r == is_ascii_alpha(c),
{
    ('a' <= c && c <= 'z') || ('A' <= c && c <= 'Z')
}

fn ascii_digit(c: char) -> (r: bool)
    ensures
        r == is_ascii_digit(c),
{
    '0' <= c && c <= '9'
}

fn hex_digit_of(c: char) -> (r: u8)
    ensures
        r == match hex_digit(c) {
            Some(v) => v,
            None => 0,
        },
        r < 16,
{
    if '0' <= c && c <= '9' {
        ((c as u32) - 48) as u8
    } else if 'a' <= c && c <= 'f' {
        ((c as u32) - 87) as u8
    } else if 'A' <= c && c <= 'F' {
        ((c as u32) - 55) as u8
    } else {
        0
    }
}

fn cp1252_byte_to_char(b: u8) -> (c: char)
    ensures
        c == cp1252(b),
{
    if b == 0x80 {
        '\u{20ac}'
    } else if b == 0x82 {
        '\u{201a}'
    } else if b == 0x83 {
        '\u{0192}'
    } else if b == 0x84 {
        '\u{201e}'
    } else if b == 0x85 {
        '\u{2026}'
    } else if b == 0x86 {
        '\u{2020}'
    } else if b == 0x87 {
        '\u{2021}'
    } else if b == 0x88 {
        '\u{02c6}'
    } else if b == 0x89 {
        '\u{2030}'
    } else if b == 0x8a {
        '\u{0160}'
    } else if b == 0x8b {
        '\u{2039}'
    } else if b == 0x8c {
        '\u{0152}'
    } else if b == 0x8e {
        '\u{017d}'
    } else if b == 0x91 {
        '\u{2018}'
    } else if b == 0x92 {
        '\u{2019}'
    } else if b == 0x93 {
        '\u{201c}'
    } else if b == 0x94 {
        '\u{201d}'
    } else if b == 0x95 {
        '\u{2022}'
    } else if b == 0x96 {
        '\u{2013}'
    } else if b == 0x97 {
        '\u{2014}'
    } else if b == 0x98 {
        '\u{02dc}'
    } else if b == 0x99 {
        '\u{2122}'
    } else if b == 0x9a {
        '\u{0161}'
    } else if b == 0x9b {
        '\u{203a}'
    } else if b == 0x9c {
        '\u{0153}'
    } else if b == 0x9e {
        '\u{017e}'
    } else if b == 0x9f {
        '\u{0178}'
    } else {
        b as char
    }
}

/// std `char::from_u32`: the character with that scalar value, if any.
#[verifier::external_body]
fn char_from_u32(v: u32) -> (r: Option<char>)
    ensures
        r is Some <==> (v <= 0x10FFFF && !(0xD800 <= v <= 0xDFFF)),
        r matches Some(ch) ==> ch as u32 == v,
{
    char::from_u32(v)
}

fn is_word(w: &[char], lit: &str) -> (r: bool)
    ensures
        r == (w@ == lit@),
{
    let l = chars_of(lit);
    crate::text::chars_eq(w, l.as_slice())
}

fn ignored_destination(w: &[char]) -> (r: bool)
    ensures
        r == is_ignored_destination(w@),
{
    is_word(w, "fonttbl") || is_word(w, "colortbl") || is_word(w, "expandedcolortbl") || is_word(
        w,
        "stylesheet",
    ) || is_word(w, "info") || is_word(w, "generator") || is_word(w, "listtable") || is_word(
        w,
        "listoverridetable",
    ) || is_word(w, "datastore") || is_word(w, "themedata") || is_word(w, "colorschememapping")
        || is_word(w, "header") || is_word(w, "footer") || is_word(w, "pict") || is_word(
        w,
        "object",
    )
}

fn skip_rtf_fallback(c: &[char], i: usize, n: usize) -> (j: usize)
    requires
        i <= c.len(),
    ensures
        j == skip_fallback(c@, i as int, n as nat),
{
    let mut index = i;
    let mut left = n;
    while left > 0
        invariant
            index <= c.len(),
            skip_fallback(c@, i as int, n as nat) == skip_fallback(c@, index as int, left as nat),
        decreases left,
    {
        if index >= c.len() {
            return index;
        }
        let next = c[index];
        if next == '{' || next == '}' {
            return index;
        }
        if next != '\\' {
            index += 1;
            left -= 1;
            continue;
        }
        index += 1;
        if index >= c.len() {
            return index;
        }
        if c[index] == '\'' {
            index = if c.len() - index > 3 {
                index + 3
            } else {
                c.len()
            };
        } else {
            index += 1;
        }
        left -= 1;
    }
    index
}

proof fn lemma_digits_value_grows(c: Seq<char>, a: int, b: int)
    requires
        a <= b,
        forall|k: int| a <= k < b + 1 ==> is_ascii_digit(#[trigger] c[k]),
    ensures
        digits_value(c, a, b + 1) >= digits_value(c, a, b),
        digits_value(c, a, b + 1) == digits_value(c, a, b) * 10 + (c[b] as u32 - 48) as nat,
{
}

/// The exec state of one group.
fn group_view(st: (bool, usize)) -> (r: Ghost<GroupState>)
    ensures
        r@ == (st.0, st.1 as nat),
{
    Ghost((st.0, st.1 as nat))
}

/// One control sequence; `i` is just past its backslash.
fn parse_rtf_control(
    c: &[char],
    i: usize,
    text: &mut Vec<char>,
    st: &mut (bool, usize),
    gs: &mut bool,
) -> (j: usize)
    requires
        i <= c.len(),
    ensures
        (j as int, final(text)@, (final(st).0, final(st).1 as nat), *final(gs)) == control_step(
            c@,
            i as int,
            old(text)@,
            (old(st).0, old(st).1 as nat),
            *old(gs),
        ),
{
    if i >= c.len() {
        return i;
    }
    if c[i] == '*' {
        if *gs {
            st.0 = true;
        }
        *gs = false;
        return i + 1;
    }
    if c[i] == '\'' {
        let mut index = i + 1;
        let hi: u8 = if index < c.len() {
            hex_digit_of(c[index])
        } else {
            0
        };
        if index < c.len() {
            index += 1;
        }
        let lo: u8 = if index < c.len() {
            hex_digit_of(c[index])
        } else {
            0
        };
        if index < c.len() {
            index += 1;
        }
        let value: u8 = hi * 16 + lo;
        if !st.0 {
            text.push(cp1252_byte_to_char(value));
        }
        *gs = false;
        return index;
    }
    if !ascii_alpha(c[i]) {
        let e = c[i];
        let mut index = i + 1;
        if !st.0 {
            if e == '\\' || e == '{' || e == '}' {
                text.push(e);
            } else if e == '\n' {
                text.push('\n');
            } else if e == '\r' {
                text.push('\n');
                if index < c.len() && c[index] == '\n' {
                    index += 1;
                }
            } else if e == '~' {
                text.push(' ');
            } else if e == '-' {
                text.push('\u{00ad}');
            } else if e == '_' {
                text.push('\u{2011}');
            }
        }
        *gs = false;
        proof {
            assert(final(text)@ =~= (if old(st).0 {
                old(text)@
            } else {
                old(text)@ + escaped_text(e)
            }));
        }
        return index;
    }
    // control word
    let mut we = i;
    proof {
        lemma_letters_end(c@, i as int);
    }
    while we < c.len() && ascii_alpha(c[we])
        invariant
            i <= we <= c.len(),
            letters_end(c@, i as int) == letters_end(c@, we as int),
        decreases c.len() - we,
    {
        we += 1;
    }
    let mut word: Vec<char> = Vec::new();
    let mut k = i;
    while k < we
        invariant
            i <= k <= we <= c.len(),
            word@ == c@.subrange(i as int, k as int),
        decreases we - k,
    {
        word.push(c[k]);
        k += 1;
    }
    let signed = we < c.len() && c[we] == '-';
    let ns = if signed {
        we + 1
    } else {
        we
    };
    let mut ne = ns;
    let mut value: u64 = 0;
    let mut overflow = false;
    proof {
        lemma_digits_end(c@, ns as int);
    }
    while ne < c.len() && ascii_digit(c[ne])
        invariant
            ns <= ne <= c.len(),
            digits_end(c@, ns as int) == digits_end(c@, ne as int),
            forall|q: int| ns <= q < ne ==> is_ascii_digit(#[trigger] c@[q]),
            !overflow ==> value == digits_value(c@, ns as int, ne as int) && value <= i32::MAX,
            overflow ==> digits_value(c@, ns as int, ne as int) > i32::MAX,
        decreases c.len() - ne,
    {
        proof {
            lemma_digits_value_grows(c@, ns as int, ne as int);
        }
        if !overflow {
            let d = ((c[ne] as u32) - 48) as u64;
            let next = value * 10 + d;
            if next > 2147483647 {
                overflow = true;
            } else {
                value = next;
            }
        }
        ne += 1;
    }
    let param: Option<i64> = if ne == ns {
        None
    } else {
        let m: i64 = if overflow {
            0
        } else {
            value as i64
        };
        Some(
            if signed {
                -m
            } else {
                m
            },
        )
    };
    let mut after = ne;
    if after < c.len() && c[after] == ' ' {
        after += 1;
    }
    proof {
        assert(word@ == c@.subrange(i as int, letters_end(c@, i as int)));
        assert(after == word_end(c@, i as int));
        assert(match param {
            Some(v) => word_param(c@, we as int) == Some(v as int),
            None => word_param(c@, we as int) is None,
        });
    }
    let ghost w = word@;
    let ghost st0 = (st.0, st.1 as nat);
    let ghost gs0 = *gs;
    let ghost text0 = text@;
    if *gs && ignored_destination(word.as_slice()) {
        st.0 = true;
    }
    proof {
        reveal_strlit("par");
        reveal_strlit("line");
        reveal_strlit("tab");
        reveal_strlit("emdash");
        reveal_strlit("endash");
        reveal_strlit("bullet");
        reveal_strlit("uc");
        reveal_strlit("u");
        assert(st.0 == (st0.0 || (gs0 && is_ignored_destination(w))));
    }
    if !st.0 {
        if is_word(word.as_slice(), "par") || is_word(word.as_slice(), "line") {
            text.push('\n');
        } else if is_word(word.as_slice(), "tab") {
            text.push('\t');
        } else if is_word(word.as_slice(), "emdash") {
            text.push('\u{2014}');
        } else if is_word(word.as_slice(), "endash") {
            text.push('\u{2013}');
        } else if is_word(word.as_slice(), "bullet") {
            text.push('\u{2022}');
        } else if is_word(word.as_slice(), "uc") {
            match param {
                Some(v) => {
                    if v >= 0 {
                        st.1 = v as usize;
                    }
                },
                None => {},
            }
        } else if is_word(word.as_slice(), "u") {
            match param {
                Some(v) => {
                    let u: i64 = if v < 0 {
                        v + 65536
                    } else {
                        v
                    };
                    if 0 <= u && u <= 0x10FFFF {
                        match char_from_u32(u as u32) {
                            Some(ch) => {
                                proof {
                                    vstd::utf8::char_u32_cast(ch, u as u32);
                                }
                                text.push(ch);
                            },
                            None => {},
                        }
                    }
                },
                None => {},
            }
            proof {
                lemma_skip_fallback(c@, after as int, st.1 as nat);
            }
            after = skip_rtf_fallback(c, after, st.1);
        }
    }
    *gs = false;
    proof {
        let expect = control_step(c@, i as int, text0, st0, gs0);
        assert(c@[i as int] != '*' && c@[i as int] != '\'' && is_ascii_alpha(c@[i as int]));
        assert(expect.3 == false);
        if st.0 {
            assert(expect == (after as int, text@, (true, st0.1), false));
        } else if w == "uc"@ {
            assert(expect.0 == after as int);
            assert(expect.1 == text@);
            assert(expect.2 == (st.0, st.1 as nat));
        } else if w == "u"@ {
            assert(expect.0 == after as int);
            assert(expect.1 == text@);
            assert(expect.2 == (st.0, st.1 as nat));
        } else {
            assert(text@ =~= text0 + word_text(w));
            assert(expect == (after as int, text@, (st.0, st.1 as nat), false));
        }
    }
    after
}

/// The views of saved group states.
pub open spec fn stack_view(v: Seq<(bool, usize)>) -> Seq<GroupState> {
    v.map_values(|p: (bool, usize)| (p.0, p.1 as nat))
}

proof fn lemma_scan_unfold(c: Seq<char>, s: ScanState)
    requires
        0 <= s.0 < c.len(),
    ensures
        scan(c, s) == scan(c, scan_step(c, s)),
{
}

/// Runs the scanner over a whole document.
fn scan_document(c: &[char]) -> (text: Vec<char>)
    ensures
        text@ == raw_text(c@),
{
    let ghost init: ScanState = (0, Seq::empty(), initial_group_state(), Seq::empty(), false);
    let mut index: usize = 0;
    let mut text: Vec<char> = Vec::new();
    let mut st: (bool, usize) = (false, 1);
    let mut stack: Vec<(bool, usize)> = Vec::new();
    let mut gs = false;
    proof {
        assert(stack_view(stack@) =~= Seq::<GroupState>::empty());
        assert(text@ =~= Seq::<char>::empty());
    }
    while index < c.len()
        invariant
            index <= c.len(),
            scan(c@, (index as int, text@, (st.0, st.1 as nat), stack_view(stack@), gs)) == scan(c@, init),
        decreases c.len() - index,
    {
        let ghost before: ScanState = (index as int, text@, (st.0, st.1 as nat), stack_view(stack@), gs);
        proof {
            lemma_scan_unfold(c@, before);
        }
        let ch = c[index];
        if ch == '{' {
            stack.push(st);
            gs = true;
            index += 1;
            proof {
                assert(stack_view(stack@) =~= before.3.push(before.2));
            }
        } else if ch == '}' {
            let ghost sv = stack_view(stack@);
            match stack.pop() {
                Some(saved) => {
                    st = saved;
                    proof {
                        assert(stack_view(stack@) =~= sv.drop_last());
                    }
                },
                None => {
                    st = (false, 1);
                },
            }
            gs = false;
            index += 1;
        } else if ch == '\\' {
            proof {
                lemma_control_step_advances(c@, index + 1, text@, (st.0, st.1 as nat), gs);
            }
            index = parse_rtf_control(c, index + 1, &mut text, &mut st, &mut gs);
        } else {
            if !st.0 && ch != '\r' && ch != '\n' {
                text.push(ch);
            }
            gs = false;
            index += 1;
        }
        proof {
            let now: ScanState = (index as int, text@, (st.0, st.1 as nat), stack_view(stack@), gs);
            assert(now == scan_step(c@, before));
        }
    }
    text
}

// ---------------------------------------------------------------------------
// Line normalization
// ---------------------------------------------------------------------------

/// A line without one trailing carriage return.
pub open spec fn strip_cr(l: Seq<char>) -> Seq<char> {
    if l.len() > 0 && l.last() == '\r' {
        l.drop_last()
    } else {
        l
    }
}

/// The lines of a text (std `str::lines`): split at `\n`, one trailing
/// `\r` dropped from each, no final empty line after a last `\n`.
pub open spec fn lines_of(s: Seq<char>) -> Seq<Seq<char>> {
    let parts = split_char(s, '\n');
    let kept = if s.len() == 0 {
        Seq::<Seq<char>>::empty()
    } else if s.last() == '\n' {
        parts.drop_last()
    } else {
        parts
    };
    kept.map_values(|l: Seq<char>| strip_cr(l))
}

/// A line with only white space.
pub open spec fn is_blank(l: Seq<char>) -> bool {
    trim(l).len() == 0
}

/// Line `i` is the first that is not blank.
pub open spec fn first_content_line(ls: Seq<Seq<char>>, i: int) -> bool {
    &&& 0 <= i < ls.len()
    &&& !is_blank(ls[i])
    &&& forall|k: int| 0 <= k < i ==> is_blank(#[trigger] ls[k])
}

/// Line `j` is the last that is not blank.
pub open spec fn last_content_line(ls: Seq<Seq<char>>, j: int) -> bool {
    &&& 0 <= j < ls.len()
    &&& !is_blank(ls[j])
    &&& forall|k: int| j < k < ls.len() ==> is_blank(#[trigger] ls[k])
}

/// Extracted text tidied for display: non-breaking spaces become spaces,
/// trailing white space leaves every line, and leading and trailing blank
/// lines go; the inner lines are joined by `\n`.
pub open spec fn normalized_text(t: Seq<char>) -> Seq<char> {
    let ls = lines_of(crate::text::replace_char(t, '\u{a0}', ' ')).map_values(|l: Seq<char>| trim_end(l));
    if exists|i: int| first_content_line(ls, i) {
        let i = choose|i: int| first_content_line(ls, i);
        let j = choose|j: int| last_content_line(ls, j);
        join_with(ls.subrange(i, j + 1), '\n')
    } else {
        Seq::empty()
    }
}

/// Plain text of an RTF document: `None` unless it starts with `{\rtf` and
/// holds visible text.
pub open spec fn rtf_plain_text(s: Seq<char>) -> Option<Seq<char>> {
    if !"{\\rtf"@.is_prefix_of(s) {
        None
    } else {
        let n = normalized_text(raw_text(s));
        if n.len() == 0 {
            None
        } else {
            Some(n)
        }
    }
}

fn text_lines(t: &[char]) -> (ls: Vec<Vec<char>>)
    ensures
        ls@.map_values(|p: Vec<char>| p@) == lines_of(t@),
{
    let mut parts = split_chars(t, '\n');
    let ghost pv = parts@.map_values(|p: Vec<char>| p@);
    proof {
        crate::text::lemma_split_char_nonempty(t@, '\n');
    }
    let ghost kept: Seq<Seq<char>>;
    if t.len() == 0 {
        parts = Vec::new();
        proof {
            kept = Seq::empty();
        }
    } else if t[t.len() - 1] == '\n' {
        parts.pop();
        proof {
            kept = pv.drop_last();
        }
    } else {
        proof {
            kept = pv;
        }
    }
    proof {
        assert(parts@.map_values(|p: Vec<char>| p@) =~= kept);
    }
    let mut out: Vec<Vec<char>> = Vec::new();
    let mut i: usize = 0;
    while i < parts.len()
        invariant
            i <= parts.len(),
            parts@.map_values(|p: Vec<char>| p@) == kept,
            out.len() == i,
            out@.map_values(|p: Vec<char>| p@) == kept.map_values(|l: Seq<char>| strip_cr(l)).take(i as int),
        decreases parts.len() - i,
    {
        let p = &parts[i];
        let mut l: Vec<char> = Vec::new();
        let n = if p.len() > 0 && p[p.len() - 1] == '\r' {
            p.len() - 1
        } else {
            p.len()
        };
        let mut k: usize = 0;
        while k < n
            invariant
                k <= n <= p.len(),
                l@ == p@.take(k as int),
            decreases n - k,
        {
            l.push(p[k]);
            k += 1;
        }
        proof {
            assert(l@ =~= strip_cr(p@));
            assert(p@ == kept[i as int]);
        }
        let ghost before = out@;
        out.push(l);
        i += 1;
        proof {
            assert(out@.map_values(|p: Vec<char>| p@) =~= kept.map_values(|l: Seq<char>| strip_cr(l)).take(i as int));
        }
    }
    proof {
        assert(kept.map_values(|l: Seq<char>| strip_cr(l)).take(parts.len() as int) =~= kept.map_values(|l: Seq<char>| strip_cr(l)));
    }
    out
}

fn blank_line(l: &[char]) -> (r: bool)
    ensures
        r == is_blank(l@),
{
    trim_chars(l).len() == 0
}

proof fn lemma_first_line_unique(ls: Seq<Seq<char>>, a: int, b: int)
    requires
        first_content_line(ls, a),
        first_content_line(ls, b),
    ensures
        a == b,
{
    if a < b {
        assert(is_blank(ls[a]));
    } else if b < a {
        assert(is_blank(ls[b]));
    }
}

proof fn lemma_last_line_unique(ls: Seq<Seq<char>>, a: int, b: int)
    requires
        last_content_line(ls, a),
        last_content_line(ls, b),
    ensures
        a == b,
{
    if a < b {
        assert(is_blank(ls[b]));
    } else if b < a {
        assert(is_blank(ls[a]));
    }
}

fn normalize_extracted_rtf_text(t: &[char]) -> (r: Vec<char>)
    ensures
        r@ == normalized_text(t@),
{
    let nb = crate::text::replace_chars(t, '\u{a0}', ' ');
    let lines = text_lines(nb.as_slice());
    let ghost lv = lines@.map_values(|p: Vec<char>| p@);
    let mut trimmed: Vec<Vec<char>> = Vec::new();
    let mut i: usize = 0;
    while i < lines.len()
        invariant
            i <= lines.len(),
            lv == lines@.map_values(|p: Vec<char>| p@),
            trimmed.len() == i,
            trimmed@.map_values(|p: Vec<char>| p@) == lv.map_values(|l: Seq<char>| trim_end(l)).take(i as int),
        decreases lines.len() - i,
    {
        let j = trim_end_index(lines[i].as_slice());
        let mut l: Vec<char> = Vec::new();
        let mut k: usize = 0;
        while k < j
            invariant
                i < lines.len(),
                k <= j <= lines@[i as int]@.len(),
                l@ == lines@[i as int]@.take(k as int),
            decreases j - k,
        {
            l.push(lines[i][k]);
            k += 1;
        }
        proof {
            assert(lv[i as int] == lines@[i as int]@);
            assert(l@ =~= trim_end(lv[i as int]));
        }
        trimmed.push(l);
        i += 1;
        proof {
            assert(trimmed@.map_values(|p: Vec<char>| p@) =~= lv.map_values(|l: Seq<char>| trim_end(l)).take(i as int));
        }
    }
    let ghost ls = lv.map_values(|l: Seq<char>| trim_end(l));
    proof {
        assert(ls.take(lines.len() as int) =~= ls);
        assert(trimmed@.map_values(|p: Vec<char>| p@) == ls);
    }
    let mut first: usize = 0;
    while first < trimmed.len() && blank_line(trimmed[first].as_slice())
        invariant
            first <= trimmed.len(),
            trimmed@.map_values(|p: Vec<char>| p@) == ls,
            forall|k: int| 0 <= k < first ==> is_blank(#[trigger] ls[k]),
        decreases trimmed.len() - first,
    {
        first += 1;
    }
    if first == trimmed.len() {
        proof {
            assert(!exists|i: int| first_content_line(ls, i));
        }
        return Vec::new();
    }
    let mut last: usize = trimmed.len() - 1;
    while blank_line(trimmed[last].as_slice())
        invariant
            first <= last < trimmed.len(),
            !is_blank(ls[first as int]),
            trimmed@.map_values(|p: Vec<char>| p@) == ls,
            forall|k: int| last < k < ls.len() ==> is_blank(#[trigger] ls[k]),
        decreases last,
    {
        last -= 1;
    }
    proof {
        assert(first_content_line(ls, first as int));
        assert(last_content_line(ls, last as int));
        let a = choose|i: int| first_content_line(ls, i);
        let b = choose|j: int| last_content_line(ls, j);
        lemma_first_line_unique(ls, a, first as int);
        lemma_last_line_unique(ls, b, last as int);
    }
    crate::text::join_range(&trimmed, first, last + 1, '\n')
}

/// Converts RTF data to plain text; `None` for data that is not RTF or
/// has no visible text.
pub fn rtf_to_text(rtf_data: &str) -> (r: Option<String>)
    ensures
        match r {
            Some(t) => rtf_plain_text(rtf_data@) == Some(t@),
            None => rtf_plain_text(rtf_data@) is None,
        },
{
    let chars = chars_of(rtf_data);
    let prefix = chars_of("{\\rtf");
    if !crate::text::chars_starts_with(chars.as_slice(), prefix.as_slice()) {
        return None;
    }
    let raw = scan_document(chars.as_slice());
    let text = normalize_extracted_rtf_text(raw.as_slice());
    if text.len() == 0 {
        None
    } else {
        Some(string_of(text.as_slice()))
    }
}

// ---------------------------------------------------------------------------
// Law: every character written survives extraction
// ---------------------------------------------------------------------------

/// The text the scanner extracts from one group holding `body`.
pub open spec fn group_text(body: Seq<char>) -> Seq<char> {
    raw_text(seq!['{'] + body + seq!['}'])
}

proof fn lemma_scan_next(c: Seq<char>, s: ScanState)
    requires
        0 <= s.0 < c.len(),
    ensures
        scan(c, s) == scan(c, scan_step(c, s)),
{
}

proof fn lemma_scan_done(c: Seq<char>, s: ScanState)
    requires
        s.0 >= c.len(),
    ensures
        scan(c, s) == s,
{
}

/// The state after `{` at the start of a document.
pub open spec fn opened(text: Seq<char>) -> ScanState {
    (1, text, initial_group_state(), seq![initial_group_state()], true)
}

/// Scanning `{ body }` where the body's scan from just after `{` reaches
/// the closing brace at `end` with `text` and the enclosing state intact.
proof fn lemma_group_close(c: Seq<char>, s: ScanState, text: Seq<char>)
    requires
        c.len() >= 2,
        c[0] == '{',
        c[c.len() - 1] == '}',
        scan(c, (0, Seq::empty(), initial_group_state(), Seq::empty(), false)) == scan(c, opened(Seq::empty())),
        scan(c, opened(Seq::empty())) == scan(c, s),
        s.0 == c.len() - 1,
        s.1 == text,
        s.3 == seq![initial_group_state()],
    ensures
        raw_text(c) == text,
{
    lemma_scan_next(c, s);
    let t = scan_step(c, s);
    assert(t.0 == c.len());
    lemma_scan_done(c, t);
}

proof fn lemma_open(c: Seq<char>)
    requires
        c.len() >= 2,
        c[0] == '{',
    ensures
        scan(c, (0, Seq::empty(), initial_group_state(), Seq::empty(), false)) == scan(c, opened(Seq::empty())),
{
    let s0: ScanState = (0, Seq::empty(), initial_group_state(), Seq::empty(), false);
    lemma_scan_next(c, s0);
    assert(scan_step(c, s0) == opened(Seq::empty()));
}

proof fn lemma_plain_char_extracts(x: char)
    requires
        x != '{',
        x != '}',
        x != '\\',
        x != '\r',
        x != '\n',
    ensures
        group_text(seq![x]) == seq![x],
{
    let c = seq!['{'] + seq![x] + seq!['}'];
    assert(c =~= seq!['{', x, '}']);
    lemma_open(c);
    let s1 = opened(Seq::empty());
    lemma_scan_next(c, s1);
    let s2 = scan_step(c, s1);
    assert(s2 == (2int, seq![x], initial_group_state(), seq![initial_group_state()], false));
    lemma_group_close(c, s2, seq![x]);
}

proof fn lemma_escaped_char_extracts(x: char)
    requires
        x == '{' || x == '}' || x == '\\',
    ensures
        group_text(seq!['\\', x]) == seq![x],
{
    let c = seq!['{'] + seq!['\\', x] + seq!['}'];
    assert(c =~= seq!['{', '\\', x, '}']);
    lemma_open(c);
    let s1 = opened(Seq::empty());
    lemma_scan_next(c, s1);
    let s2 = scan_step(c, s1);
    assert(!is_ascii_alpha(x));
    assert(escaped_text(x) == seq![x]);
    assert(Seq::<char>::empty() + seq![x] =~= seq![x]);
    assert(s2 == (3int, seq![x], initial_group_state(), seq![initial_group_state()], false));
    lemma_group_close(c, s2, seq![x]);
}

proof fn lemma_paragraph_extracts()
    ensures
        group_text(seq!['\\', 'p', 'a', 'r', ' ']) == seq!['\n'],
{
    let c = seq!['{'] + seq!['\\', 'p', 'a', 'r', ' '] + seq!['}'];
    assert(c =~= seq!['{', '\\', 'p', 'a', 'r', ' ', '}']);
    lemma_open(c);
    let s1 = opened(Seq::empty());
    lemma_scan_next(c, s1);
    assert(letters_end(c, 5) == 5);
    assert(letters_end(c, 4) == 5);
    assert(letters_end(c, 3) == 5);
    assert(letters_end(c, 2) == 5);
    assert(c.subrange(2, 5) =~= "par"@) by {
        reveal_strlit("par");
    }
    assert(digits_end(c, 5) == 5);
    assert(word_end(c, 2) == 6);
    assert(word_param(c, 5) is None);
    reveal_strlit("fonttbl");
    reveal_strlit("colortbl");
    reveal_strlit("expandedcolortbl");
    reveal_strlit("stylesheet");
    reveal_strlit("info");
    reveal_strlit("generator");
    reveal_strlit("listtable");
    reveal_strlit("listoverridetable");
    reveal_strlit("datastore");
    reveal_strlit("themedata");
    reveal_strlit("colorschememapping");
    reveal_strlit("header");
    reveal_strlit("footer");
    reveal_strlit("pict");
    reveal_strlit("object");
    reveal_strlit("uc");
    reveal_strlit("u");
    reveal_strlit("line");
    assert(!is_ignored_destination("par"@));
    assert("par"@ != "uc"@);
    assert("par"@ != "u"@);
    assert(word_text("par"@) == seq!['\n']);
    let s2 = scan_step(c, s1);
    assert(Seq::<char>::empty() + seq!['\n'] =~= seq!['\n']);
    assert(s2 == (6int, seq!['\n'], initial_group_state(), seq![initial_group_state()], false));
    lemma_group_close(c, s2, seq!['\n']);
}

proof fn lemma_hex_escape_extracts(h1: char, h2: char, v1: nat, v2: nat)
    requires
        hex_digit(h1) == Some(v1),
        hex_digit(h2) == Some(v2),
    ensures
        group_text(seq!['\\', '\'', h1, h2]) == seq![cp1252((v1 * 16 + v2) as u8)],
{
    let c = seq!['{'] + seq!['\\', '\'', h1, h2] + seq!['}'];
    assert(c =~= seq!['{', '\\', '\'', h1, h2, '}']);
    lemma_open(c);
    let s1 = opened(Seq::empty());
    lemma_scan_next(c, s1);
    let s2 = scan_step(c, s1);
    assert(s2 == (5int, seq![cp1252((v1 * 16 + v2) as u8)], initial_group_state(), seq![initial_group_state()], false));
    lemma_group_close(c, s2, seq![cp1252((v1 * 16 + v2) as u8)]);
}

proof fn lemma_decimal_digits(n: nat)
    ensures
        decimal(n).len() >= 1,
        forall|k: int| 0 <= k < decimal(n).len() ==> is_ascii_digit(#[trigger] decimal(n)[k]),
    decreases n,
{
    if n >= 10 {
        lemma_decimal_digits(n / 10);
        let d = decimal(n / 10);
        assert forall|k: int| 0 <= k < decimal(n).len() implies is_ascii_digit(#[trigger] decimal(n)[k]) by {
            if k < d.len() {
                assert(decimal(n)[k] == d[k]);
            } else {
                assert(decimal(n)[k] == digit_char(n % 10));
            }
        }
    }
}

proof fn lemma_digits_value_decimal(c: Seq<char>, a: int, n: nat)
    requires
        0 <= a,
        a + decimal(n).len() <= c.len(),
        c.subrange(a, a + decimal(n).len()) == decimal(n),
    ensures
        digits_value(c, a, a + decimal(n).len()) == n,
    decreases n,
{
    let d = decimal(n);
    let b = a + d.len();
    assert(c[b - 1] == d[d.len() - 1]);
    if n < 10 {
        assert(c[a] == digit_char(n));
        assert(digits_value(c, a, a) == 0);
    } else {
        let p = decimal(n / 10);
        assert(d == p.push(digit_char(n % 10)));
        assert(c.subrange(a, a + p.len()) =~= p) by {
            assert forall|k: int| 0 <= k < p.len() implies c.subrange(a, a + p.len())[k] == p[k] by {
                assert(c.subrange(a, b)[k] == d[k]);
            }
        }
        lemma_digits_value_decimal(c, a, n / 10);
        assert(c[b - 1] == digit_char(n % 10));
    }
}

proof fn lemma_digits_end_at(c: Seq<char>, a: int, e: int)
    requires
        0 <= a <= e < c.len(),
        forall|k: int| a <= k < e ==> is_ascii_digit(#[trigger] c[k]),
        !is_ascii_digit(c[e]),
    ensures
        digits_end(c, a) == e,
{
    lemma_digits_end(c, a);
    let de = digits_end(c, a);
    if de < e {
        assert(is_ascii_digit(c[de]));
    } else if de > e {
        assert(is_ascii_digit(c[e]));
    }
}

proof fn lemma_unicode_escape_extracts(ch: char)
    requires
        (ch as u32) > 127,
    ensures
        group_text(seq!['\\', 'u'] + decimal((ch as u32) as nat) + seq!['?']) == seq![ch],
{
    let n: nat = (ch as u32) as nat;
    let d = decimal(n);
    lemma_decimal_digits(n);
    let c = seq!['{'] + (seq!['\\', 'u'] + d + seq!['?']) + seq!['}'];
    let e: int = 3 + d.len() as int;
    assert(c.len() == e + 2);
    assert(c[0] == '{' && c[1] == '\\' && c[2] == 'u');
    assert forall|k: int| 3 <= k < e implies c[k] == d[k - 3] by {}
    assert(c[e] == '?' && c[e + 1] == '}');
    assert forall|k: int| 3 <= k < e implies is_ascii_digit(#[trigger] c[k]) by {
        assert(c[k] == d[k - 3]);
    }
    assert(is_ascii_digit(c[3]));
    lemma_open(c);
    let s1 = opened(Seq::empty());
    lemma_scan_next(c, s1);
    assert(!is_ascii_alpha(c[3]));
    assert(letters_end(c, 3) == 3);
    assert(letters_end(c, 2) == 3);
    assert(c.subrange(2, 3) =~= "u"@) by {
        reveal_strlit("u");
    }
    assert(c[3] != '-');
    lemma_digits_end_at(c, 3, e);
    assert(word_end(c, 2) == e);
    assert(c.subrange(3, e) =~= d);
    lemma_digits_value_decimal(c, 3, n);
    assert(n <= 0x10FFFF);
    assert(word_param(c, 3) == Some(n as int));
    vstd::utf8::char_is_scalar(ch);
    vstd::utf8::char_u32_cast(ch, ch as u32);
    assert(unicode_param_char(n as int) == Some(ch));
    reveal_strlit("fonttbl");
    reveal_strlit("colortbl");
    reveal_strlit("expandedcolortbl");
    reveal_strlit("stylesheet");
    reveal_strlit("info");
    reveal_strlit("generator");
    reveal_strlit("listtable");
    reveal_strlit("listoverridetable");
    reveal_strlit("datastore");
    reveal_strlit("themedata");
    reveal_strlit("colorschememapping");
    reveal_strlit("header");
    reveal_strlit("footer");
    reveal_strlit("pict");
    reveal_strlit("object");
    reveal_strlit("uc");
    assert(!is_ignored_destination("u"@));
    assert("u"@ != "uc"@);
    assert(skip_fallback(c, e + 1, 0) == e + 1);
    assert(skip_fallback(c, e, 1) == e + 1);
    let s2 = scan_step(c, s1);
    assert(s2 == (e + 1, seq![ch], initial_group_state(), seq![initial_group_state()], false));
    lemma_group_close(c, s2, seq![ch]);
}

/// Law: every character the RTF writer encodes (a carriage return aside,
/// which RTF readers drop as a line-ending) comes back unchanged when the
/// extractor reads its encoding inside a group: `\par` gives a line break,
/// escaped braces and backslashes give themselves, the Windows-1252 escapes
/// give the curly quotes, dashes and ellipsis, and `\uN?` gives any other
/// non-ASCII character.
pub proof fn law_written_char_is_extracted(ch: char)
    requires
        ch != '\r',
    ensures
        group_text(crate::rtf::rtf_char(ch)) == seq![ch],
{
    if ch == '\n' {
        reveal_strlit("\\par ");
        assert(crate::rtf::rtf_char(ch) =~= seq!['\\', 'p', 'a', 'r', ' ']);
        lemma_paragraph_extracts();
    } else if ch == '\\' || ch == '{' || ch == '}' {
        lemma_escaped_char_extracts(ch);
    } else if ch == '\u{2019}' {
        reveal_strlit("\\'92");
        assert(crate::rtf::rtf_char(ch) =~= seq!['\\', '\'', '9', '2']);
        lemma_hex_escape_extracts('9', '2', 9, 2);
    } else if ch == '\u{2018}' {
        reveal_strlit("\\'91");
        assert(crate::rtf::rtf_char(ch) =~= seq!['\\', '\'', '9', '1']);
        lemma_hex_escape_extracts('9', '1', 9, 1);
    } else if ch == '\u{201C}' {
        reveal_strlit("\\'93");
        assert(crate::rtf::rtf_char(ch) =~= seq!['\\', '\'', '9', '3']);
        lemma_hex_escape_extracts('9', '3', 9, 3);
    } else if ch == '\u{201D}' {
        reveal_strlit("\\'94");
        assert(crate::rtf::rtf_char(ch) =~= seq!['\\', '\'', '9', '4']);
        lemma_hex_escape_extracts('9', '4', 9, 4);
    } else if ch == '\u{2013}' {
        reveal_strlit("\\'96");
        assert(crate::rtf::rtf_char(ch) =~= seq!['\\', '\'', '9', '6']);
        lemma_hex_escape_extracts('9', '6', 9, 6);
    } else if ch == '\u{2014}' {
        reveal_strlit("\\'97");
        assert(crate::rtf::rtf_char(ch) =~= seq!['\\', '\'', '9', '7']);
        lemma_hex_escape_extracts('9', '7', 9, 7);
    } else if ch == '\u{2026}' {
        reveal_strlit("\\'85");
        assert(crate::rtf::rtf_char(ch) =~= seq!['\\', '\'', '8', '5']);
        lemma_hex_escape_extracts('8', '5', 8, 5);
    } else if (ch as u32) > 127 {
        lemma_unicode_escape_extracts(ch);
    } else {
        lemma_plain_char_extracts(ch);
    }
}

} // verus!

//! Fuzzy title scoring for presentation-library discovery.
//!
//! A query is scored against each library entry by a fixed rule set: fuzzy
//! similarity (the skim matcher), whole-name containment, exact and prefix
//! matches, composite queries (`A / B`, `A and B`), word tokens, hymn
//! numbers and the Lord's Prayer. Entries with some quality or a score above
//! 300 are kept, best first.
use vstd::prelude::*;
use fuzzy_matcher::FuzzyMatcher;
use crate::text::{
    ascii_lower, chars_eq, chars_eq_ignore_ascii_case, chars_of, chars_starts_with, eq_ignore_ascii_case,
    find_chars, find_first, is_whitespace, string_of, to_lowercase, trim, trim_chars, trim_start,
    trim_start_index, unicode_lowercase, unicode_white_space, nonempty_parts, split_char,
};

verus! {

// ---------------------------------------------------------------------------
// The fuzzy matcher
// ---------------------------------------------------------------------------

/// What fuzzy-matcher's `SkimMatcherV2::default().fuzzy_match(choice,
/// pattern)` returns.
pub uninterp spec fn skim_score(choice: Seq<char>, pattern: Seq<char>) -> Option<int>;

/// Smart case: the match is case-sensitive when the pattern holds an ASCII
/// capital letter.
pub open spec fn smart_case_sensitive(pattern: Seq<char>) -> bool {
    exists|i: int| 0 <= i < pattern.len() && 'A' <= #[trigger] pattern[i] <= 'Z'
}

/// Two characters are equal, ignoring ASCII case unless `case_sensitive`.
pub open spec fn skim_char_equal(a: char, b: char, case_sensitive: bool) -> bool {
    if case_sensitive {
        a == b
    } else {
        ascii_lower(a) == ascii_lower(b)
    }
}

/// The pattern's characters occur in order in the choice (matched
/// greedily from the left).
pub open spec fn pattern_in_order(choice: Seq<char>, pattern: Seq<char>, case_sensitive: bool) -> bool
    decreases choice.len(),
{
    if pattern.len() == 0 {
        true
    } else if choice.len() == 0 {
        false
    } else if skim_char_equal(choice[0], pattern[0], case_sensitive) {
        pattern_in_order(choice.drop_first(), pattern.drop_first(), case_sensitive)
    } else {
        pattern_in_order(choice.drop_first(), pattern, case_sensitive)
    }
}

/// fuzzy-matcher `SkimMatcherV2::default()` and `FuzzyMatcher::fuzzy_match`.
/// The score is named, not described; the source returns `Some(0)` for an
/// empty pattern, `None` when the pattern's characters do not occur in
/// order in the choice (its `cheap_matches` under smart case), and
/// otherwise a matrix cell's `i32` score widened to `i64`, which is what
/// the contract states besides the name.
#[verifier::external_body]
fn fuzzy_match(choice: &str, pattern: &str) -> (r: Option<i64>)
    ensures
        match r {
            Some(v) => skim_score(choice@, pattern@) == Some(v as int) && i32::MIN <= v <= i32::MAX,
            None => skim_score(choice@, pattern@) is None,
        },
        pattern@.len() == 0 ==> r == Some(0i64),
        !pattern_in_order(choice@, pattern@, smart_case_sensitive(pattern@)) ==> r is None,
{
    fuzzy_matcher::skim::SkimMatcherV2::default().fuzzy_match(choice, pattern)
}

/// The fuzzy score, zero when there is none.
pub open spec fn skim_or_zero(choice: Seq<char>, pattern: Seq<char>) -> int {
    match skim_score(choice, pattern) {
        Some(v) => v,
        None => 0,
    }
}

// ---------------------------------------------------------------------------
// Texts
// ---------------------------------------------------------------------------

/// The UTF-8 length of a character.
pub open spec fn char_utf8_len(c: char) -> nat {
    if (c as u32) < 0x80 {
        1
    } else if (c as u32) < 0x800 {
        2
    } else if (c as u32) < 0x10000 {
        3
    } else {
        4
    }
}

/// The UTF-8 length of a text (std `str::len`).
pub open spec fn utf8_len(s: Seq<char>) -> nat
    decreases s.len(),
{
    if s.len() == 0 {
        0
    } else {
        utf8_len(s.drop_last()) + char_utf8_len(s.last())
    }
}

fn utf8_length(s: &[char]) -> (r: u128)
    ensures
        r == utf8_len(s@),
        r <= 4 * s@.len(),
        r <= 4 * (usize::MAX as int),
{
    let mut n: u128 = 0;
    let mut i: usize = 0;
    while i < s.len()
        invariant
            i <= s.len(),
            n == utf8_len(s@.take(i as int)),
            n <= 4 * i,
        decreases s.len() - i,
    {
        let c = s[i] as u32;
        let w: u128 = if c < 0x80 { 1 } else if c < 0x800 { 2 } else if c < 0x10000 { 3 } else { 4 };
        proof {
            assert(s@.take(i + 1).drop_last() =~= s@.take(i as int));
        }
        n = n + w;
        i += 1;
    }
    proof {
        assert(s@.take(s.len() as int) =~= s@);
    }
    n
}

/// Whether `p` occurs in `s`.
#[verifier::opaque]
pub open spec fn contains(s: Seq<char>, p: Seq<char>) -> bool {
    find_first(s, p) is Some
}

fn contains_chars(s: &[char], p: &[char]) -> (r: bool)
    ensures
        r == contains(s@, p@),
{
    proof {
        reveal(contains);
    }
    find_chars(s, p).is_some()
}

fn contains_str(s: &[char], p: &str) -> (r: bool)
    ensures
        r == contains(s@, p@),
{
    proof {
        reveal(contains);
    }
    let pc = chars_of(p);
    find_chars(s, pc.as_slice()).is_some()
}

// ---------------------------------------------------------------------------
// Library entries
// ---------------------------------------------------------------------------

/// One presentation of the library, with its searchable names.
#[derive(Debug)]
pub struct LibraryEntry {
    /// File name of the presentation.
    pub file_name: String,
    /// Normalized title.
    pub normalized_name: String,
    /// Lowercase file name.
    pub file_name_lower: String,
    /// Lowercase normalized title.
    pub normalized_lower: String,
}

impl Clone for LibraryEntry {
    fn clone(&self) -> (r: LibraryEntry)
        ensures
            r@ == self@,
    {
        LibraryEntry {
            file_name: self.file_name.clone(),
            normalized_name: self.normalized_name.clone(),
            file_name_lower: self.file_name_lower.clone(),
            normalized_lower: self.normalized_lower.clone(),
        }
    }
}

/// An entry's names: file name, normalized title, and their lowercase forms.
pub type EntryNames = (Seq<char>, Seq<char>, Seq<char>, Seq<char>);

impl View for LibraryEntry {
    type V = EntryNames;

    open spec fn view(&self) -> EntryNames {
        (self.file_name@, self.normalized_name@, self.file_name_lower@, self.normalized_lower@)
    }
}

// ---------------------------------------------------------------------------
// Scoring one entry
// ---------------------------------------------------------------------------

/// A running score and match quality.
pub type Scored = (int, int);

/// The larger of two integers.
pub open spec fn max_int(a: int, b: int) -> int {
    if a >= b {
        a
    } else {
        b
    }
}

/// `v` capped at `i64::MAX`.
pub open spec fn capped(v: int) -> int {
    if v > i64::MAX {
        i64::MAX as int
    } else {
        v
    }
}

/// The whole-name containment rule.
pub open spec fn containment_rule(e: EntryNames, query_lower: Seq<char>, s: Scored) -> Scored {
    if contains(query_lower, e.2) {
        (max_int(s.0, capped((25_000 + 100 * utf8_len(e.2)) as int)), 3)
    } else if contains(query_lower, e.3) && utf8_len(e.3) > 5 {
        (max_int(s.0, capped((22_000 + 100 * utf8_len(e.3)) as int)), 3)
    } else {
        s
    }
}

/// The exact, prefix and substring rule for the effective term.
pub open spec fn term_rule(e: EntryNames, term: Seq<char>, term_lower: Seq<char>, s: Scored) -> Scored {
    if eq_ignore_ascii_case(e.1, term) {
        (max_int(s.0, 20_000), 3)
    } else if eq_ignore_ascii_case(e.0, term) {
        (max_int(s.0, 19_000), 3)
    } else if term_lower.is_prefix_of(e.3) {
        (max_int(s.0, 15_000), max_int(s.1, 2))
    } else if term_lower.is_prefix_of(e.2) {
        (max_int(s.0, 14_000), max_int(s.1, 2))
    } else if contains(e.3, term_lower) {
        (max_int(s.0, if utf8_len(term_lower) <= 2 { 800 } else { 8_000 }), max_int(s.1, 1))
    } else if contains(e.2, term_lower) {
        (max_int(s.0, if utf8_len(term_lower) <= 2 { 600 } else { 6_000 }), max_int(s.1, 1))
    } else {
        s
    }
}

/// The rule for the last part of a composite query.
pub open spec fn composite_rule(e: EntryNames, parts: Seq<Seq<char>>, s: Scored) -> Scored {
    if parts.len() == 0 {
        s
    } else {
        let last = parts.last();
        let last_lower = unicode_lowercase(last);
        if eq_ignore_ascii_case(e.1, last) || eq_ignore_ascii_case(e.0, last) {
            (max_int(s.0, 20_000), 3)
        } else if last_lower.is_prefix_of(e.3) || last_lower.is_prefix_of(e.2) {
            (max_int(s.0, 15_000), 3)
        } else if contains(e.3, last_lower) {
            (max_int(s.0, 6_000), max_int(s.1, 2))
        } else {
            s
        }
    }
}

/// Whether a token is a short word skipped by token scoring.
pub open spec fn skip_word(t: Seq<char>) -> bool {
    t == "my"@ || t == "me"@ || t == "we"@ || t == "us"@ || t == "it"@ || t == "is"@ || t == "am"@ || t
        == "be"@
}

/// The boost of a token by its length.
pub open spec fn token_boost(len: nat) -> int {
    if len <= 2 {
        50
    } else if len <= 4 {
        200
    } else {
        400
    }
}

/// Whether a token stands as a whole word of a lowercase title.
pub open spec fn whole_word(title: Seq<char>, t: Seq<char>) -> bool {
    contains(title, " "@ + t + " "@) || (t + " "@).is_prefix_of(title) || (" "@ + t).is_suffix_of(title)
        || title == t
}

/// The score of one token, when it scores.
pub open spec fn token_score(e: EntryNames, t: Seq<char>) -> Option<int> {
    if utf8_len(t) <= 2 && skip_word(t) {
        None
    } else {
        let base = match skim_score(e.1, t) {
            Some(v) => v,
            None => skim_or_zero(e.0, t),
        };
        let boost = token_boost(utf8_len(t));
        let score = if contains(e.3, t) {
            base + 3_000 + boost + if whole_word(e.3, t) { 2_000int } else { 0int }
        } else if contains(e.2, t) {
            base + 2_000 + boost
        } else {
            base
        };
        if score > 0 {
            Some(score)
        } else {
            None
        }
    }
}

/// The token rule over the first `n` tokens.
pub open spec fn tokens_rule(e: EntryNames, tokens: Seq<Seq<char>>, n: int, s: Scored) -> Scored
    decreases n,
{
    if n <= 0 {
        s
    } else {
        let prev = tokens_rule(e, tokens, n - 1, s);
        match token_score(e, tokens[n - 1]) {
            Some(ts) => (
                max_int(prev.0, ts),
                if ts > 3_000 {
                    max_int(prev.1, 2)
                } else if ts > 1_000 {
                    max_int(prev.1, 1)
                } else {
                    prev.1
                },
            ),
            None => prev,
        }
    }
}

/// The hymn-number rule.
pub open spec fn hymn_rule(e: EntryNames, number: Option<Seq<char>>, s: Scored) -> Scored {
    match number {
        Some(n) => if contains(e.2, "#"@ + n) || contains(e.2, " "@ + n + " "@) || contains(e.2, "-"@ + n) {
            (max_int(s.0, 9_000), 3)
        } else {
            s
        },
        None => s,
    }
}

/// The Lord's Prayer rule.
pub open spec fn prayer_rule(e: EntryNames, query_lower: Seq<char>, s: Scored) -> Scored {
    if s.1 < 3 && (contains(query_lower, "lord's prayer"@) || contains(query_lower, "our father"@)) {
        if contains(e.3, "lord's prayer"@) || contains(e.2, "lord's prayer"@) {
            (max_int(s.0, 10_000), max_int(s.1, 2))
        } else if contains(e.3, "our father"@) || contains(e.2, "our father"@) {
            (max_int(s.0, 8_000), max_int(s.1, 2))
        } else {
            s
        }
    } else {
        s
    }
}

/// The score of an entry for a prepared query, when it is kept.
#[verifier::opaque]
pub open spec fn entry_score(
    e: EntryNames,
    term: Seq<char>,
    term_lower: Seq<char>,
    query_lower: Seq<char>,
    hymn_number: Option<Seq<char>>,
    composite_parts: Seq<Seq<char>>,
    tokens: Seq<Seq<char>>,
) -> Option<int> {
    let base = max_int(skim_or_zero(e.1, term), skim_or_zero(e.0, term));
    let s1 = containment_rule(e, query_lower, (base, 0));
    let s2 = term_rule(e, term, term_lower, s1);
    let s3 = composite_rule(e, composite_parts, s2);
    let s4 = tokens_rule(e, tokens, tokens.len() as int, s3);
    let s5 = hymn_rule(e, hymn_number, s4);
    let s6 = prayer_rule(e, query_lower, s5);
    if s6.1 > 0 || s6.0 > 300 {
        Some(max_int(s6.0, 10))
    } else {
        None
    }
}


// ---------------------------------------------------------------------------
// Executable scoring
// ---------------------------------------------------------------------------

fn max_i64(a: i64, b: i64) -> (r: i64)
    ensures
        r as int == max_int(a as int, b as int),
{
    if a >= b {
        a
    } else {
        b
    }
}

fn max_u8(a: u8, b: u8) -> (r: u8)
    ensures
        r as int == max_int(a as int, b as int),
{
    if a >= b {
        a
    } else {
        b
    }
}

fn capped_bonus(base: i128, len: u128) -> (r: i64)
    requires
        0 <= base <= 100_000,
        len <= 4 * (usize::MAX as int),
    ensures
        r as int == capped(base + 100 * len),
{
    let v: i128 = base + 100 * (len as i128);
    if v > i64::MAX as i128 {
        i64::MAX
    } else {
        v as i64
    }
}

fn chars_ends_with(s: &[char], p: &[char]) -> (r: bool)
    ensures
        r == p@.is_suffix_of(s@),
{
    if p.len() > s.len() {
        return false;
    }
    let off = s.len() - p.len();
    let mut i: usize = 0;
    while i < p.len()
        invariant
            off == s.len() - p.len(),
            i <= p.len(),
            forall|k: int| 0 <= k < i ==> s@[off + k] == p@[k],
        decreases p.len() - i,
    {
        if s[off + i] != p[i] {
            return false;
        }
        i += 1;
    }
    proof {
        assert(s@.subrange(off as int, s@.len() as int) =~= p@);
    }
    true
}

fn concat3(a: &str, b: &[char], c: &str) -> (r: Vec<char>)
    ensures
        r@ == a@ + b@ + c@,
{
    let mut r = chars_of(a);
    let mut i: usize = 0;
    let ghost start = r@;
    while i < b.len()
        invariant
            i <= b.len(),
            start == a@,
            r@ == start + b@.take(i as int),
        decreases b.len() - i,
    {
        r.push(b[i]);
        i += 1;
        proof {
            assert(r@ =~= start + b@.take(i as int));
        }
    }
    let cc = chars_of(c);
    let mut j: usize = 0;
    let ghost mid = r@;
    proof {
        assert(b@.take(b.len() as int) =~= b@);
    }
    while j < cc.len()
        invariant
            j <= cc.len(),
            mid == a@ + b@,
            cc@ == c@,
            r@ == mid + cc@.take(j as int),
        decreases cc.len() - j,
    {
        r.push(cc[j]);
        j += 1;
        proof {
            assert(r@ =~= mid + cc@.take(j as int));
        }
    }
    proof {
        assert(cc@.take(cc.len() as int) =~= cc@);
    }
    r
}

fn apply_containment(e: &LibraryEntry, ql: &[char], s: (i64, u8)) -> (r: (i64, u8))
    requires
        s.1 <= 3,
    ensures
        (r.0 as int, r.1 as int) == containment_rule(e@, ql@, (s.0 as int, s.1 as int)),
        r.1 <= 3,
{
    let fl = chars_of(e.file_name_lower.as_str());
    let nl = chars_of(e.normalized_lower.as_str());
    if contains_chars(ql, fl.as_slice()) {
        (max_i64(s.0, capped_bonus(25_000, utf8_length(fl.as_slice()))), 3)
    } else {
        let nlen = utf8_length(nl.as_slice());
        if contains_chars(ql, nl.as_slice()) && nlen > 5 {
            (max_i64(s.0, capped_bonus(22_000, nlen)), 3)
        } else {
            s
        }
    }
}

fn apply_term(e: &LibraryEntry, term: &[char], term_lower: &[char], s: (i64, u8)) -> (r: (i64, u8))
    requires
        s.1 <= 3,
    ensures
        (r.0 as int, r.1 as int) == term_rule(e@, term@, term_lower@, (s.0 as int, s.1 as int)),
        r.1 <= 3,
{
    let fname = chars_of(e.file_name.as_str());
    let nname = chars_of(e.normalized_name.as_str());
    let fl = chars_of(e.file_name_lower.as_str());
    let nl = chars_of(e.normalized_lower.as_str());
    if chars_eq_ignore_ascii_case(nname.as_slice(), term) {
        (max_i64(s.0, 20_000), 3)
    } else if chars_eq_ignore_ascii_case(fname.as_slice(), term) {
        (max_i64(s.0, 19_000), 3)
    } else if chars_starts_with(nl.as_slice(), term_lower) {
        (max_i64(s.0, 15_000), max_u8(s.1, 2))
    } else if chars_starts_with(fl.as_slice(), term_lower) {
        (max_i64(s.0, 14_000), max_u8(s.1, 2))
    } else if contains_chars(nl.as_slice(), term_lower) {
        let short = utf8_length(term_lower) <= 2;
        (max_i64(s.0, if short { 800 } else { 8_000 }), max_u8(s.1, 1))
    } else if contains_chars(fl.as_slice(), term_lower) {
        let short = utf8_length(term_lower) <= 2;
        (max_i64(s.0, if short { 600 } else { 6_000 }), max_u8(s.1, 1))
    } else {
        s
    }
}

fn apply_composite(e: &LibraryEntry, parts: &Vec<Vec<char>>, s: (i64, u8)) -> (r: (i64, u8))
    requires
        s.1 <= 3,
    ensures
        (r.0 as int, r.1 as int) == composite_rule(e@, parts@.map_values(|p: Vec<char>| p@), (s.0 as int, s.1 as int)),
        r.1 <= 3,
{
    let ghost pv = parts@.map_values(|p: Vec<char>| p@);
    if parts.len() == 0 {
        return s;
    }
    let last = &parts[parts.len() - 1];
    proof {
        assert(pv.last() == last@);
    }
    let last_lower = chars_of(to_lowercase(string_of(last.as_slice()).as_str()).as_str());
    let fname = chars_of(e.file_name.as_str());
    let nname = chars_of(e.normalized_name.as_str());
    let fl = chars_of(e.file_name_lower.as_str());
    let nl = chars_of(e.normalized_lower.as_str());
    if chars_eq_ignore_ascii_case(nname.as_slice(), last.as_slice()) || chars_eq_ignore_ascii_case(
        fname.as_slice(),
        last.as_slice(),
    ) {
        (max_i64(s.0, 20_000), 3)
    } else if chars_starts_with(nl.as_slice(), last_lower.as_slice()) || chars_starts_with(
        fl.as_slice(),
        last_lower.as_slice(),
    ) {
        (max_i64(s.0, 15_000), 3)
    } else if contains_chars(nl.as_slice(), last_lower.as_slice()) {
        (max_i64(s.0, 6_000), max_u8(s.1, 2))
    } else {
        s
    }
}

fn is_skip_word(t: &[char]) -> (r: bool)
    ensures
        r == skip_word(t@),
{
    let words = ["my", "me", "we", "us", "it", "is", "am", "be"];
    let mut i: usize = 0;
    while i < 8
        invariant
            i <= 8,
            words@ == seq!["my", "me", "we", "us", "it", "is", "am", "be"],
            forall|k: int| 0 <= k < i ==> t@ != (#[trigger] words@[k])@,
        decreases 8 - i,
    {
        let w = chars_of(words[i]);
        if chars_eq(t, w.as_slice()) {
            return true;
        }
        i += 1;
    }
    proof {
        assert(t@ != words@[0]@);
        assert(t@ != words@[1]@);
        assert(t@ != words@[2]@);
        assert(t@ != words@[3]@);
        assert(t@ != words@[4]@);
        assert(t@ != words@[5]@);
        assert(t@ != words@[6]@);
        assert(t@ != words@[7]@);
    }
    false
}

fn is_whole_word(title: &[char], t: &[char]) -> (r: bool)
    ensures
        r == whole_word(title@, t@),
{
    let spaced = concat3(" ", t, " ");
    let leading = concat3("", t, " ");
    let trailing = concat3(" ", t, "");
    proof {
        reveal_strlit("");
        assert(leading@ =~= t@ + " "@);
        assert(trailing@ =~= " "@ + t@);
    }
    contains_chars(title, spaced.as_slice()) || chars_starts_with(title, leading.as_slice()) || chars_ends_with(
        title,
        trailing.as_slice(),
    ) || chars_eq(title, t)
}

fn token_base(e: &LibraryEntry, t: &str) -> (r: i64)
    ensures
        r == match skim_score(e@.1, t@) {
            Some(v) => v,
            None => skim_or_zero(e@.0, t@),
        },
        i32::MIN <= r <= i32::MAX,
{
    match fuzzy_match(e.normalized_name.as_str(), t) {
        Some(v) => v,
        None => match fuzzy_match(e.file_name.as_str(), t) {
            Some(v) => v,
            None => 0,
        },
    }
}

fn score_token(e: &LibraryEntry, t: &[char]) -> (r: Option<i64>)
    ensures
        match r {
            Some(v) => token_score(e@, t@) == Some(v as int),
            None => token_score(e@, t@) is None,
        },
{
    let len = utf8_length(t);
    if len <= 2 && is_skip_word(t) {
        return None;
    }
    let ts = string_of(t);
    let base = token_base(e, ts.as_str());
    let boost: i64 = if len <= 2 { 50 } else if len <= 4 { 200 } else { 400 };
    let fl = chars_of(e.file_name_lower.as_str());
    let nl = chars_of(e.normalized_lower.as_str());
    let score: i64 = if contains_chars(nl.as_slice(), t) {
        let whole = is_whole_word(nl.as_slice(), t);
        base + 3_000 + boost + if whole { 2_000 } else { 0 }
    } else if contains_chars(fl.as_slice(), t) {
        base + 2_000 + boost
    } else {
        base
    };
    if score > 0 {
        Some(score)
    } else {
        None
    }
}

fn apply_tokens(e: &LibraryEntry, tokens: &Vec<Vec<char>>, s: (i64, u8)) -> (r: (i64, u8))
    requires
        s.1 <= 3,
    ensures
        (r.0 as int, r.1 as int) == tokens_rule(
            e@,
            tokens@.map_values(|p: Vec<char>| p@),
            tokens@.len() as int,
            (s.0 as int, s.1 as int),
        ),
        r.1 <= 3,
{
    let ghost tv = tokens@.map_values(|p: Vec<char>| p@);
    let mut cur = s;
    let mut i: usize = 0;
    while i < tokens.len()
        invariant
            i <= tokens.len(),
            tv == tokens@.map_values(|p: Vec<char>| p@),
            cur.1 <= 3,
            (cur.0 as int, cur.1 as int) == tokens_rule(e@, tv, i as int, (s.0 as int, s.1 as int)),
        decreases tokens.len() - i,
    {
        proof {
            assert(tv[i as int] == tokens@[i as int]@);
        }
        match score_token(e, tokens[i].as_slice()) {
            Some(ts) => {
                let q = if ts > 3_000 {
                    max_u8(cur.1, 2)
                } else if ts > 1_000 {
                    max_u8(cur.1, 1)
                } else {
                    cur.1
                };
                cur = (max_i64(cur.0, ts), q);
            },
            None => {},
        }
        i += 1;
    }
    cur
}

fn apply_hymn(e: &LibraryEntry, number: &Option<Vec<char>>, s: (i64, u8)) -> (r: (i64, u8))
    requires
        s.1 <= 3,
    ensures
        (r.0 as int, r.1 as int) == hymn_rule(e@, match number {
            Some(n) => Some(n@),
            None => None,
        }, (s.0 as int, s.1 as int)),
        r.1 <= 3,
{
    match number {
        Some(n) => {
            let fl = chars_of(e.file_name_lower.as_str());
            let hashed = concat3("#", n.as_slice(), "");
            let spaced = concat3(" ", n.as_slice(), " ");
            let dashed = concat3("-", n.as_slice(), "");
            proof {
                reveal_strlit("");
                assert(hashed@ =~= "#"@ + n@);
                assert(dashed@ =~= "-"@ + n@);
            }
            if contains_chars(fl.as_slice(), hashed.as_slice()) || contains_chars(fl.as_slice(), spaced.as_slice())
                || contains_chars(fl.as_slice(), dashed.as_slice()) {
                (max_i64(s.0, 9_000), 3)
            } else {
                s
            }
        },
        None => s,
    }
}

fn apply_prayer(e: &LibraryEntry, ql: &[char], s: (i64, u8)) -> (r: (i64, u8))
    requires
        s.1 <= 3,
    ensures
        (r.0 as int, r.1 as int) == prayer_rule(e@, ql@, (s.0 as int, s.1 as int)),
        r.1 <= 3,
{
    if s.1 < 3 && (contains_str(ql, "lord's prayer") || contains_str(ql, "our father")) {
        let fl = chars_of(e.file_name_lower.as_str());
        let nl = chars_of(e.normalized_lower.as_str());
        if contains_str(nl.as_slice(), "lord's prayer") || contains_str(fl.as_slice(), "lord's prayer") {
            (max_i64(s.0, 10_000), max_u8(s.1, 2))
        } else if contains_str(nl.as_slice(), "our father") || contains_str(fl.as_slice(), "our father") {
            (max_i64(s.0, 8_000), max_u8(s.1, 2))
        } else {
            s
        }
    } else {
        s
    }
}

/// Score one entry for a prepared query: the effective term and its
/// lowercase form, the lowercase raw query, an optional hymn number,
/// composite parts and tokens. `None` when the entry is not kept.
pub fn score_entry(
    entry: &LibraryEntry,
    term: &str,
    term_lower: &str,
    query_lower: &str,
    hymn_number: &Option<Vec<char>>,
    composite_parts: &Vec<Vec<char>>,
    tokens: &Vec<Vec<char>>,
) -> (r: Option<i64>)
    ensures
        ({
            let expected = entry_score(
                entry@,
                term@,
                term_lower@,
                query_lower@,
                match hymn_number {
                    Some(n) => Some(n@),
                    None => None,
                },
                composite_parts@.map_values(|p: Vec<char>| p@),
                tokens@.map_values(|p: Vec<char>| p@),
            );
            match r {
                Some(v) => expected == Some(v as int),
                None => expected is None,
            }
        }),
{
    let a = match fuzzy_match(entry.normalized_name.as_str(), term) {
        Some(v) => v,
        None => 0,
    };
    let b = match fuzzy_match(entry.file_name.as_str(), term) {
        Some(v) => v,
        None => 0,
    };
    let tc = chars_of(term);
    let tl = chars_of(term_lower);
    let ql = chars_of(query_lower);
    let s0 = (max_i64(a, b), 0u8);
    let s1 = apply_containment(entry, ql.as_slice(), s0);
    let s2 = apply_term(entry, tc.as_slice(), tl.as_slice(), s1);
    let s3 = apply_composite(entry, composite_parts, s2);
    let s4 = apply_tokens(entry, tokens, s3);
    let s5 = apply_hymn(entry, hymn_number, s4);
    let s6 = apply_prayer(entry, ql.as_slice(), s5);
    proof {
        reveal(entry_score);
    }
    if s6.1 > 0 || s6.0 > 300 {
        Some(max_i64(s6.0, 10))
    } else {
        None
    }
}


// ---------------------------------------------------------------------------
// Hymn numbers
// ---------------------------------------------------------------------------

/// Whether a character is an ASCII digit.
pub open spec fn is_ascii_digit(c: char) -> bool {
    '0' <= c && c <= '9'
}

/// The number of leading ASCII digits.
pub open spec fn digit_prefix_len(s: Seq<char>) -> nat
    decreases s.len(),
{
    if s.len() > 0 && is_ascii_digit(s[0]) {
        1 + digit_prefix_len(s.drop_first())
    } else {
        0
    }
}

/// The leading ASCII digits of a text, when there are any.
pub open spec fn leading_digits(s: Seq<char>) -> Option<Seq<char>> {
    if digit_prefix_len(s) > 0 {
        Some(s.take(digit_prefix_len(s) as int))
    } else {
        None
    }
}

/// The digits after the first `#`, at or after `i`, that has digits.
pub open spec fn hash_number_from(s: Seq<char>, i: int) -> Option<Seq<char>>
    decreases s.len() - i,
{
    if i < 0 || i >= s.len() {
        None
    } else if s[i] == '#' && leading_digits(s.skip(i + 1)) is Some {
        leading_digits(s.skip(i + 1))
    } else {
        hash_number_from(s, i + 1)
    }
}

/// ASCII lowercase of a text.
pub open spec fn ascii_lowercase(s: Seq<char>) -> Seq<char> {
    s.map_values(|c: char| crate::text::ascii_lower(c))
}

/// The number after the first `hymn` (ignoring ASCII case) when white
/// space follows the word: leading digits after an optional `#`.
pub open spec fn hymn_word_number(s: Seq<char>) -> Option<Seq<char>> {
    match find_first(ascii_lowercase(s), "hymn"@) {
        Some(i) => {
            let rest = s.skip(i + 4);
            if rest.len() > 0 && unicode_white_space(rest[0]) {
                let r = trim_start(rest);
                let r2 = if r.len() > 0 && r[0] == '#' {
                    r.skip(1)
                } else {
                    r
                };
                leading_digits(r2)
            } else {
                None
            }
        },
        None => None,
    }
}

/// The hymn number a query names: after a `#`, after the word `hymn`, or
/// leading the query.
pub open spec fn hymn_number(s: Seq<char>) -> Option<Seq<char>> {
    match hash_number_from(s, 0) {
        Some(n) => Some(n),
        None => match hymn_word_number(s) {
            Some(n) => Some(n),
            None => leading_digits(trim_start(s)),
        },
    }
}

fn leading_digits_exec(s: &[char], from: usize) -> (r: Option<Vec<char>>)
    requires
        from <= s.len(),
    ensures
        match r {
            Some(d) => leading_digits(s@.skip(from as int)) == Some(d@),
            None => leading_digits(s@.skip(from as int)) is None,
        },
{
    let ghost t = s@.skip(from as int);
    let mut d: Vec<char> = Vec::new();
    let mut k = from;
    proof {
        assert(t.skip(0) =~= t);
        assert(t.take(0) =~= Seq::<char>::empty());
    }
    while k < s.len() && '0' <= s[k] && s[k] <= '9'
        invariant
            from <= k <= s.len(),
            t == s@.skip(from as int),
            d@ == t.take(k - from),
            forall|q: int| 0 <= q < k - from ==> is_ascii_digit(t[q]),
            digit_prefix_len(t) == (k - from) + digit_prefix_len(t.skip(k - from)),
        decreases s.len() - k,
    {
        proof {
            assert(t.skip(k - from).drop_first() =~= t.skip(k + 1 - from));
            assert(t.skip(k - from)[0] == s@[k as int]);
        }
        d.push(s[k]);
        k += 1;
        proof {
            assert(d@ =~= t.take(k - from));
        }
    }
    proof {
        if k < s.len() {
            assert(t.skip(k - from)[0] == s@[k as int]);
        } else {
            assert(t.skip(k - from).len() == 0);
        }
        assert(digit_prefix_len(t.skip(k - from)) == 0);
    }
    if d.len() > 0 {
        Some(d)
    } else {
        None
    }
}

fn ascii_lowered(s: &[char]) -> (r: Vec<char>)
    ensures
        r@ == ascii_lowercase(s@),
{
    let mut r: Vec<char> = Vec::new();
    let mut i: usize = 0;
    while i < s.len()
        invariant
            i <= s.len(),
            r@ == ascii_lowercase(s@.take(i as int)),
        decreases s.len() - i,
    {
        let l = crate::text::ascii_lower_char(s[i]);
        proof {
            assert(ascii_lowercase(s@.take(i + 1)) =~= ascii_lowercase(s@.take(i as int)).push(
                crate::text::ascii_lower(s@[i as int]),
            ));
        }
        r.push(l);
        i += 1;
    }
    proof {
        assert(s@.take(s.len() as int) =~= s@);
    }
    r
}

/// The hymn number a query names.
pub fn extract_hymn_number(text: &str) -> (r: Option<String>)
    ensures
        match r {
            Some(n) => hymn_number(text@) == Some(n@),
            None => hymn_number(text@) is None,
        },
{
    let t = chars_of(text);
    let mut i: usize = 0;
    while i < t.len()
        invariant
            i <= t.len(),
            t@ == text@,
            hash_number_from(t@, 0) == hash_number_from(t@, i as int),
        decreases t.len() - i,
    {
        if t[i] == '#' {
            match leading_digits_exec(t.as_slice(), i + 1) {
                Some(d) => return Some(string_of(d.as_slice())),
                None => {},
            }
        }
        i += 1;
    }
    let lower = ascii_lowered(t.as_slice());
    let hymn = chars_of("hymn");
    match find_chars(lower.as_slice(), hymn.as_slice()) {
        Some(at) => {
            proof {
                reveal_strlit("hymn");
            }
            let start = at + 4;
            if start < t.len() && is_whitespace(t[start]) {
                let mut rest: Vec<char> = Vec::new();
                let mut k = start;
                while k < t.len()
                    invariant
                        start <= k <= t.len(),
                        rest@ == t@.subrange(start as int, k as int),
                    decreases t.len() - k,
                {
                    rest.push(t[k]);
                    k += 1;
                }
                proof {
                    assert(rest@ =~= t@.skip(start as int));
                }
                let j = trim_start_index(rest.as_slice());
                let from = if j < rest.len() && rest[j] == '#' { j + 1 } else { j };
                proof {
                    let r = trim_start(rest@);
                    assert(r == rest@.skip(j as int));
                    if j < rest.len() && rest[j as int] == '#' {
                        assert(r.skip(1) =~= rest@.skip(j + 1));
                    }
                }
                match leading_digits_exec(rest.as_slice(), from) {
                    Some(d) => return Some(string_of(d.as_slice())),
                    None => {},
                }
            } else {
                proof {
                    assert(start >= t.len() ==> t@.skip(start as int).len() == 0);
                }
            }
        },
        None => {},
    }
    let j = trim_start_index(t.as_slice());
    match leading_digits_exec(t.as_slice(), j) {
        Some(d) => Some(string_of(d.as_slice())),
        None => None,
    }
}


// ---------------------------------------------------------------------------
// Query parts
// ---------------------------------------------------------------------------

/// A text split at each occurrence of a non-empty separator (std
/// `str::split` with a string pattern).
#[verifier::opaque]
pub open spec fn split_on(s: Seq<char>, sep: Seq<char>) -> Seq<Seq<char>>
    decreases s.len(),
{
    proof {
        crate::text::lemma_find_first_occurs(s, sep);
    }
    if sep.len() == 0 {
        seq![s]
    } else {
        match find_first(s, sep) {
            Some(i) => seq![s.take(i)] + split_on(s.skip(i + sep.len()), sep),
            None => seq![s],
        }
    }
}

/// Each part trimmed.
pub open spec fn trimmed_parts(parts: Seq<Seq<char>>) -> Seq<Seq<char>> {
    parts.map_values(|p: Seq<char>| trim(p))
}

/// The parts of a composite query: split at `/`, else at ` and ` when the
/// lowercase query holds it; each trimmed, empty ones dropped.
pub open spec fn composite_parts(q: Seq<char>) -> Seq<Seq<char>> {
    if contains(q, "/"@) {
        nonempty_parts(trimmed_parts(split_char(q, '/')))
    } else if contains(unicode_lowercase(q), " and "@) {
        nonempty_parts(trimmed_parts(split_on(q, " and "@)))
    } else {
        Seq::empty()
    }
}

/// The white-space separated words of a text (std `str::split_whitespace`).
pub open spec fn words(s: Seq<char>) -> Seq<Seq<char>>
    decreases s.len(),
{
    if s.len() == 0 {
        Seq::empty()
    } else {
        let w = words(s.drop_last());
        if unicode_white_space(s.last()) {
            w
        } else if s.len() >= 2 && !unicode_white_space(s[s.len() - 2]) {
            w.update(w.len() - 1, w.last().push(s.last()))
        } else {
            w.push(seq![s.last()])
        }
    }
}

/// Whether a token is a stop word.
pub open spec fn stop_word(t: Seq<char>) -> bool {
    t == "and"@ || t == "the"@ || t == "of"@ || t == "to"@ || t == "in"@
}

/// The words kept as tokens: longer than one byte and not stop words.
pub open spec fn kept_words(w: Seq<Seq<char>>) -> Seq<Seq<char>>
    decreases w.len(),
{
    if w.len() == 0 {
        Seq::empty()
    } else if utf8_len(w.last()) > 1 && !stop_word(w.last()) {
        kept_words(w.drop_last()).push(w.last())
    } else {
        kept_words(w.drop_last())
    }
}

/// The tokens of a lowercase query; the whole query when no word is kept.
pub open spec fn query_tokens(ql: Seq<char>) -> Seq<Seq<char>> {
    let k = kept_words(words(ql));
    if k.len() == 0 {
        seq![ql]
    } else {
        k
    }
}

fn suffix_of(s: &Vec<char>, from: usize) -> (r: Vec<char>)
    requires
        from <= s.len(),
    ensures
        r@ == s@.skip(from as int),
{
    let mut r: Vec<char> = Vec::new();
    let mut k = from;
    while k < s.len()
        invariant
            from <= k <= s.len(),
            r@ == s@.subrange(from as int, k as int),
        decreases s.len() - k,
    {
        r.push(s[k]);
        k += 1;
    }
    r
}

fn prefix_of(s: &Vec<char>, to: usize) -> (r: Vec<char>)
    requires
        to <= s.len(),
    ensures
        r@ == s@.take(to as int),
{
    let mut r: Vec<char> = Vec::new();
    let mut k: usize = 0;
    while k < to
        invariant
            k <= to <= s.len(),
            r@ == s@.take(k as int),
        decreases to - k,
    {
        r.push(s[k]);
        k += 1;
        proof {
            assert(r@ =~= s@.take(k as int));
        }
    }
    r
}

proof fn lemma_split_on_found(s: Seq<char>, sep: Seq<char>, i: int)
    requires
        sep.len() > 0,
        find_first(s, sep) == Some(i),
    ensures
        split_on(s, sep) == seq![s.take(i)] + split_on(s.skip(i + sep.len()), sep),
        0 <= i,
        i + sep.len() <= s.len(),
{
    reveal(split_on);
    crate::text::lemma_find_first_occurs(s, sep);
}

proof fn lemma_split_on_absent(s: Seq<char>, sep: Seq<char>)
    requires
        sep.len() > 0,
        find_first(s, sep) is None,
    ensures
        split_on(s, sep) == seq![s],
{
    reveal(split_on);
}

fn split_on_chars(s: &Vec<char>, sep: &Vec<char>) -> (r: Vec<Vec<char>>)
    requires
        sep.len() > 0,
    ensures
        r@.map_values(|p: Vec<char>| p@) == split_on(s@, sep@),
{
    let mut out: Vec<Vec<char>> = Vec::new();
    let mut rest = suffix_of(s, 0);
    proof {
        assert(rest@ =~= s@);
        assert(out@.map_values(|p: Vec<char>| p@) =~= Seq::<Seq<char>>::empty());
    }
    loop
        invariant
            sep.len() > 0,
            out@.map_values(|p: Vec<char>| p@) + split_on(rest@, sep@) == split_on(s@, sep@),
        decreases rest.len(),
    {
        match find_chars(rest.as_slice(), sep.as_slice()) {
            Some(i) => {
                proof {
                    lemma_split_on_found(rest@, sep@, i as int);
                }
                let piece = prefix_of(&rest, i);
                let next = suffix_of(&rest, i + sep.len());
                let ghost before = out@.map_values(|p: Vec<char>| p@);
                let ghost tail = split_on(next@, sep@);
                out.push(piece);
                proof {
                    assert(out@.map_values(|p: Vec<char>| p@) =~= before.push(rest@.take(i as int)));
                    assert(before.push(rest@.take(i as int)) + tail =~= before + (seq![rest@.take(i as int)] + tail));
                }
                rest = next;
            },
            None => {
                proof {
                    lemma_split_on_absent(rest@, sep@);
                }
                let ghost before = out@.map_values(|p: Vec<char>| p@);
                let ghost last = rest@;
                out.push(rest);
                proof {
                    assert(out@.map_values(|p: Vec<char>| p@) =~= before + seq![last]);
                }
                return out;
            },
        }
    }
}

fn trim_each(parts: Vec<Vec<char>>) -> (r: Vec<Vec<char>>)
    ensures
        r@.map_values(|p: Vec<char>| p@) == trimmed_parts(parts@.map_values(|p: Vec<char>| p@)),
{
    let mut r: Vec<Vec<char>> = Vec::new();
    let mut i: usize = 0;
    while i < parts.len()
        invariant
            i <= parts.len(),
            r@.len() == i,
            forall|k: int| 0 <= k < i ==> (#[trigger] r@[k])@ == trim(parts@[k]@),
        decreases parts.len() - i,
    {
        r.push(trim_chars(parts[i].as_slice()));
        i += 1;
    }
    proof {
        assert(r@.map_values(|p: Vec<char>| p@) =~= trimmed_parts(parts@.map_values(|p: Vec<char>| p@)));
    }
    r
}

/// The parts of a composite query.
pub fn parse_composite_query(query: &str) -> (r: Vec<Vec<char>>)
    ensures
        r@.map_values(|p: Vec<char>| p@) == composite_parts(query@),
{
    let q = chars_of(query);
    if contains_str(q.as_slice(), "/") {
        proof {
            reveal_strlit("/");
        }
        let parts = crate::text::split_chars(q.as_slice(), '/');
        crate::text::keep_nonempty(trim_each(parts))
    } else {
        let lower = chars_of(to_lowercase(query).as_str());
        if contains_str(lower.as_slice(), " and ") {
            let sep = chars_of(" and ");
            proof {
                reveal_strlit(" and ");
            }
            let parts = split_on_chars(&q, &sep);
            crate::text::keep_nonempty(trim_each(parts))
        } else {
            Vec::new()
        }
    }
}

fn split_words(s: &[char]) -> (r: Vec<Vec<char>>)
    ensures
        r@.map_values(|p: Vec<char>| p@) == words(s@),
{
    let mut r: Vec<Vec<char>> = Vec::new();
    let mut i: usize = 0;
    proof {
        assert(s@.take(0) =~= Seq::<char>::empty());
        assert(r@.map_values(|p: Vec<char>| p@) =~= Seq::<Seq<char>>::empty());
    }
    while i < s.len()
        invariant
            i <= s.len(),
            r@.map_values(|p: Vec<char>| p@) == words(s@.take(i as int)),
            i > 0 && !unicode_white_space(s@[i - 1]) ==> r@.len() > 0,
        decreases s.len() - i,
    {
        let c = s[i];
        let ghost before = r@;
        let ghost t = s@.take(i + 1);
        proof {
            assert(t.drop_last() =~= s@.take(i as int));
            assert(t.last() == c);
            if i >= 1 {
                assert(t[t.len() - 2] == s@[i - 1]);
            }
        }
        if is_whitespace(c) {
        } else if i >= 1 && !is_whitespace(s[i - 1]) {
            let k = r.len() - 1;
            let mut w = r.remove(k);
            w.push(c);
            r.push(w);
            proof {
                assert(r@.map_values(|p: Vec<char>| p@) =~= before.map_values(|p: Vec<char>| p@).update(
                    k as int,
                    before[k as int]@.push(c),
                ));
            }
        } else {
            let mut nw: Vec<char> = Vec::new();
            nw.push(c);
            r.push(nw);
            proof {
                assert(r@.map_values(|p: Vec<char>| p@) =~= before.map_values(|p: Vec<char>| p@).push(seq![c]));
            }
        }
        i += 1;
    }
    proof {
        assert(s@.take(s.len() as int) =~= s@);
    }
    r
}

fn is_stop_word(t: &[char]) -> (r: bool)
    ensures
        r == stop_word(t@),
{
    let a = chars_of("and");
    let b = chars_of("the");
    let c = chars_of("of");
    let d = chars_of("to");
    let e = chars_of("in");
    chars_eq(t, a.as_slice()) || chars_eq(t, b.as_slice()) || chars_eq(t, c.as_slice()) || chars_eq(
        t,
        d.as_slice(),
    ) || chars_eq(t, e.as_slice())
}

/// The tokens of a lowercase query.
pub fn tokenize_query(query_lower: &str) -> (r: Vec<Vec<char>>)
    ensures
        r@.map_values(|p: Vec<char>| p@) == query_tokens(query_lower@),
{
    let ql = chars_of(query_lower);
    let w = split_words(ql.as_slice());
    let ghost wv = w@.map_values(|p: Vec<char>| p@);
    let mut kept: Vec<Vec<char>> = Vec::new();
    let mut i: usize = 0;
    proof {
        assert(wv.take(0) =~= Seq::<Seq<char>>::empty());
        assert(kept@.map_values(|p: Vec<char>| p@) =~= Seq::<Seq<char>>::empty());
    }
    while i < w.len()
        invariant
            i <= w.len(),
            wv == w@.map_values(|p: Vec<char>| p@),
            kept@.map_values(|p: Vec<char>| p@) == kept_words(wv.take(i as int)),
        decreases w.len() - i,
    {
        proof {
            assert(wv.take(i + 1).drop_last() =~= wv.take(i as int));
            assert(wv.take(i + 1).last() == w@[i as int]@);
        }
        if utf8_length(w[i].as_slice()) > 1 && !is_stop_word(w[i].as_slice()) {
            let ghost before = kept@;
            kept.push(w[i].clone());
            proof {
                assert(kept@.map_values(|p: Vec<char>| p@) =~= before.map_values(|p: Vec<char>| p@).push(
                    w@[i as int]@,
                ));
            }
        }
        i += 1;
    }
    proof {
        assert(wv.take(w.len() as int) =~= wv);
    }
    if kept.len() == 0 {
        let r = vec![ql];
        proof {
            assert(r@.map_values(|p: Vec<char>| p@) =~= seq![query_lower@]);
        }
        r
    } else {
        kept
    }
}


// ---------------------------------------------------------------------------
// Title normalization
// ---------------------------------------------------------------------------

/// What regex `Regex::new(pattern)` then `Regex::replace(text, rep)` gives:
/// `None` when the pattern does not compile.
pub uninterp spec fn regex_replaced_first(pattern: Seq<char>, text: Seq<char>, rep: Seq<char>) -> Option<Seq<char>>;

/// What regex `Regex::new(pattern)` then `Regex::replace_all(text, rep)`
/// gives: `None` when the pattern does not compile.
pub uninterp spec fn regex_replaced_all(pattern: Seq<char>, text: Seq<char>, rep: Seq<char>) -> Option<Seq<char>>;

/// regex `Regex::new` and `Regex::replace` (the first match replaced),
/// rendered as an owned string. The result is named, not described.
#[verifier::external_body]
fn regex_replace(pattern: &str, text: &str, rep: &str) -> (r: Option<String>)
    ensures
        match r {
            Some(t) => regex_replaced_first(pattern@, text@, rep@) == Some(t@),
            None => regex_replaced_first(pattern@, text@, rep@) is None,
        },
{
    regex::Regex::new(pattern).ok().map(|re| re.replace(text, rep).into_owned())
}

/// regex `Regex::new` and `Regex::replace_all` (every match replaced),
/// rendered as an owned string. The result is named, not described.
#[verifier::external_body]
fn regex_replace_all(pattern: &str, text: &str, rep: &str) -> (r: Option<String>)
    ensures
        match r {
            Some(t) => regex_replaced_all(pattern@, text@, rep@) == Some(t@),
            None => regex_replaced_all(pattern@, text@, rep@) is None,
        },
{
    regex::Regex::new(pattern).ok().map(|re| re.replace_all(text, rep).into_owned())
}

/// The first match replaced; the text unchanged when the pattern does not
/// compile.
pub open spec fn replace_first_in(pattern: Seq<char>, text: Seq<char>, rep: Seq<char>) -> Seq<char> {
    match regex_replaced_first(pattern, text, rep) {
        Some(t) => t,
        None => text,
    }
}

/// Every match replaced; the text unchanged when the pattern does not
/// compile.
pub open spec fn replace_all_in(pattern: Seq<char>, text: Seq<char>, rep: Seq<char>) -> Seq<char> {
    match regex_replaced_all(pattern, text, rep) {
        Some(t) => t,
        None => text,
    }
}

/// The normalized title of a presentation name: a leading bracketed tag,
/// `#number`, `hymn [#]number`, `anthem` label and leading number removed,
/// punctuation turned into spaces, runs of white space collapsed, trimmed.
pub open spec fn normalized_title(name: Seq<char>) -> Seq<char> {
    let a = replace_first_in(r"^\s*\[[^\]]+\]\s*"@, name, ""@);
    let b = replace_first_in(r"^\s*#\d+\s*"@, a, ""@);
    let c = replace_first_in(r"^\s*(?i)hymn\s+(?:#?\d+\s*|)"@, b, ""@);
    let d = replace_first_in(r"^\s*(?i)anthem\s*[:|-]?\s*"@, c, ""@);
    let e = replace_first_in(r"^\s*\d+[\.:\-\s]+"@, d, ""@);
    let f = replace_all_in(r"[,;:\(\)\[\]'!?]"@, e, " "@);
    let g = replace_all_in(r"\s+"@, f, " "@);
    trim(g)
}

fn replace_first_or_keep(pattern: &str, text: String, rep: &str) -> (r: String)
    ensures
        r@ == replace_first_in(pattern@, text@, rep@),
{
    match regex_replace(pattern, text.as_str(), rep) {
        Some(t) => t,
        None => text,
    }
}

fn replace_all_or_keep(pattern: &str, text: String, rep: &str) -> (r: String)
    ensures
        r@ == replace_all_in(pattern@, text@, rep@),
{
    match regex_replace_all(pattern, text.as_str(), rep) {
        Some(t) => t,
        None => text,
    }
}

/// Normalize a presentation file name for title matching.
pub fn normalize_name(name: &str) -> (r: String)
    ensures
        r@ == normalized_title(name@),
{
    let a = replace_first_or_keep(r"^\s*\[[^\]]+\]\s*", name.to_string(), "");
    let b = replace_first_or_keep(r"^\s*#\d+\s*", a, "");
    let c = replace_first_or_keep(r"^\s*(?i)hymn\s+(?:#?\d+\s*|)", b, "");
    let d = replace_first_or_keep(r"^\s*(?i)anthem\s*[:|-]?\s*", c, "");
    let e = replace_first_or_keep(r"^\s*\d+[\.:\-\s]+", d, "");
    let f = replace_all_or_keep(r"[,;:\(\)\[\]'!?]", e, " ");
    let g = replace_all_or_keep(r"\s+", f, " ");
    let t = trim_chars(chars_of(g.as_str()).as_slice());
    string_of(t.as_slice())
}

// ---------------------------------------------------------------------------
// Ranking
// ---------------------------------------------------------------------------

/// A scored entry: its score and its position in the catalog.
pub type Ranked = (int, int);

/// `x` inserted into a run sorted by descending score, after every entry
/// that scores at least as much.
pub open spec fn insert_desc(s: Seq<Ranked>, x: Ranked) -> Seq<Ranked>
    decreases s.len(),
{
    if s.len() == 0 {
        seq![x]
    } else if s[0].0 >= x.0 {
        seq![s[0]] + insert_desc(s.drop_first(), x)
    } else {
        seq![x] + s
    }
}

/// A run ordered by descending score, equal scores in their first order.
pub open spec fn sorted_desc(s: Seq<Ranked>) -> Seq<Ranked>
    decreases s.len(),
{
    if s.len() == 0 {
        Seq::empty()
    } else {
        insert_desc(sorted_desc(s.drop_last()), s.last())
    }
}

/// The entries scoring at least `t`, in order.
pub open spec fn at_least(s: Seq<Ranked>, t: int) -> Seq<Ranked>
    decreases s.len(),
{
    if s.len() == 0 {
        Seq::empty()
    } else if s.last().0 >= t {
        at_least(s.drop_last(), t).push(s.last())
    } else {
        at_least(s.drop_last(), t)
    }
}

/// The ranking after the relevance threshold: with more than twice
/// `minimum` results, those scoring under the threshold of the top score
/// are dropped, unless fewer than `minimum` would remain.
pub open spec fn threshold_filter(results: Seq<Ranked>, minimum: int) -> Seq<Ranked> {
    if results.len() <= minimum {
        results
    } else {
        let top = if results.len() > 0 { results[0].0 } else { 0 };
        let threshold = if top > 10_000 {
            500
        } else if top > 5_000 {
            300
        } else {
            100
        };
        if results.len() > minimum * 2 && at_least(results, threshold).len() >= minimum {
            at_least(results, threshold)
        } else {
            results
        }
    }
}

/// Ranked pairs as integers.
pub open spec fn ranked_views(v: Seq<(i64, usize)>) -> Seq<Ranked> {
    v.map_values(|p: (i64, usize)| (p.0 as int, p.1 as int))
}

proof fn lemma_insert_desc_split(s: Seq<Ranked>, x: Ranked, p: int)
    requires
        0 <= p <= s.len(),
        forall|k: int| 0 <= k < p ==> s[k].0 >= x.0,
        p < s.len() ==> s[p].0 < x.0,
    ensures
        insert_desc(s, x) == s.take(p) + seq![x] + s.skip(p),
    decreases p,
{
    if p == 0 {
        if s.len() == 0 {
            assert(s.take(0) + seq![x] + s.skip(0) =~= seq![x]);
        } else {
            assert(s.take(0) + seq![x] + s.skip(0) =~= seq![x] + s);
        }
    } else {
        let t = s.drop_first();
        assert forall|k: int| 0 <= k < p - 1 implies t[k].0 >= x.0 by {
            assert(t[k] == s[k + 1]);
        }
        if p - 1 < t.len() {
            assert(t[p - 1] == s[p]);
        }
        lemma_insert_desc_split(t, x, p - 1);
        assert(seq![s[0]] + (t.take(p - 1) + seq![x] + t.skip(p - 1)) =~= s.take(p) + seq![x] + s.skip(p));
    }
}

proof fn lemma_insert_keeps_sorted(s: Seq<Ranked>, x: Ranked)
    requires
        forall|i: int, j: int| 0 <= i < j < s.len() ==> s[i].0 >= s[j].0,
    ensures
        forall|i: int, j: int| 0 <= i < j < insert_desc(s, x).len() ==> insert_desc(s, x)[i].0 >= insert_desc(s, x)[j].0,
        insert_desc(s, x).len() == s.len() + 1,
    decreases s.len(),
{
    if s.len() > 0 && s[0].0 >= x.0 {
        let t = s.drop_first();
        lemma_insert_keeps_sorted(t, x);
        let r = insert_desc(s, x);
        let rt = insert_desc(t, x);
        assert(r == seq![s[0]] + rt);
        assert forall|i: int, j: int| 0 <= i < j < r.len() implies r[i].0 >= r[j].0 by {
            if i == 0 {
                let q = rt[j - 1];
                assert(r[j] == q);
                lemma_insert_members(t, x, j - 1);
            }
        }
    }
}

proof fn lemma_insert_len(s: Seq<Ranked>, x: Ranked)
    ensures
        insert_desc(s, x).len() == s.len() + 1,
    decreases s.len(),
{
    if s.len() > 0 && s[0].0 >= x.0 {
        lemma_insert_len(s.drop_first(), x);
    }
}

proof fn lemma_insert_members(s: Seq<Ranked>, x: Ranked, k: int)
    requires
        0 <= k < insert_desc(s, x).len(),
    ensures
        insert_desc(s, x)[k] == x || exists|m: int| 0 <= m < s.len() && insert_desc(s, x)[k] == s[m],
        insert_desc(s, x).len() == s.len() + 1,
    decreases s.len(),
{
    lemma_insert_len(s, x);
    if s.len() > 0 && s[0].0 >= x.0 {
        let t = s.drop_first();
        lemma_insert_len(t, x);
        if k > 0 {
            lemma_insert_members(t, x, k - 1);
            if insert_desc(t, x)[k - 1] != x {
                let m = choose|m: int| 0 <= m < t.len() && insert_desc(t, x)[k - 1] == t[m];
                assert(s[m + 1] == t[m]);
            }
        } else {
            assert(insert_desc(s, x)[0] == s[0]);
        }
    } else if s.len() > 0 {
        if k > 0 {
            assert(insert_desc(s, x)[k] == s[k - 1]);
        }
    } else {
        assert(insert_desc(s, x).len() == 1);
    }
}

fn sort_ranked(v: Vec<(i64, usize)>) -> (r: Vec<(i64, usize)>)
    ensures
        ranked_views(r@) == sorted_desc(ranked_views(v@)),
{
    let ghost vv = ranked_views(v@);
    let mut r: Vec<(i64, usize)> = Vec::new();
    let mut i: usize = 0;
    proof {
        assert(vv.take(0) =~= Seq::<Ranked>::empty());
        assert(ranked_views(r@) =~= Seq::<Ranked>::empty());
    }
    while i < v.len()
        invariant
            i <= v.len(),
            vv == ranked_views(v@),
            ranked_views(r@) == sorted_desc(vv.take(i as int)),
            forall|a: int, b: int| 0 <= a < b < r@.len() ==> r@[a].0 >= r@[b].0,
        decreases v.len() - i,
    {
        let x = v[i];
        let mut p: usize = 0;
        while p < r.len() && r[p].0 >= x.0
            invariant
                p <= r.len(),
                forall|k: int| 0 <= k < p ==> r@[k].0 >= x.0,
            decreases r.len() - p,
        {
            p += 1;
        }
        let ghost rv = ranked_views(r@);
        let ghost xv = (x.0 as int, x.1 as int);
        proof {
            assert(vv.take(i + 1).drop_last() =~= vv.take(i as int));
            assert(vv.take(i + 1).last() == xv);
            assert forall|k: int| 0 <= k < p implies rv[k].0 >= xv.0 by {
                assert(rv[k].0 == r@[k].0);
            }
            if p < r.len() {
                assert(rv[p as int].0 == r@[p as int].0);
            }
            lemma_insert_desc_split(rv, xv, p as int);
            lemma_insert_keeps_sorted(rv, xv);
        }
        let ghost before = r@;
        r.insert(p, x);
        proof {
            assert(r@ =~= before.take(p as int) + seq![x] + before.skip(p as int));
            assert(ranked_views(r@) =~= rv.take(p as int) + seq![xv] + rv.skip(p as int));
            assert(ranked_views(r@) == insert_desc(rv, xv));
            assert forall|a: int, b: int| 0 <= a < b < r@.len() implies r@[a].0 >= r@[b].0 by {
                assert(ranked_views(r@)[a].0 == r@[a].0);
                assert(ranked_views(r@)[b].0 == r@[b].0);
            }
        }
        i += 1;
    }
    proof {
        assert(vv.take(v.len() as int) =~= vv);
    }
    r
}

fn keep_at_least(v: &Vec<(i64, usize)>, t: i64) -> (r: Vec<(i64, usize)>)
    ensures
        ranked_views(r@) == at_least(ranked_views(v@), t as int),
{
    let ghost vv = ranked_views(v@);
    let mut r: Vec<(i64, usize)> = Vec::new();
    let mut i: usize = 0;
    proof {
        assert(vv.take(0) =~= Seq::<Ranked>::empty());
        assert(ranked_views(r@) =~= Seq::<Ranked>::empty());
    }
    while i < v.len()
        invariant
            i <= v.len(),
            vv == ranked_views(v@),
            ranked_views(r@) == at_least(vv.take(i as int), t as int),
        decreases v.len() - i,
    {
        proof {
            assert(vv.take(i + 1).drop_last() =~= vv.take(i as int));
            assert(vv.take(i + 1).last() == (v@[i as int].0 as int, v@[i as int].1 as int));
        }
        if v[i].0 >= t {
            let ghost before = r@;
            r.push(v[i]);
            proof {
                assert(ranked_views(r@) =~= ranked_views(before).push((v@[i as int].0 as int, v@[i as int].1 as int)));
            }
        }
        i += 1;
    }
    proof {
        assert(vv.take(v.len() as int) =~= vv);
    }
    r
}

/// Drop weak results when there are many: see [`threshold_filter`].
pub fn apply_threshold_filter(results: Vec<(i64, usize)>, minimum_desired: usize) -> (r: Vec<(i64, usize)>)
    requires
        minimum_desired <= usize::MAX / 2,
    ensures
        ranked_views(r@) == threshold_filter(ranked_views(results@), minimum_desired as int),
{
    if results.len() <= minimum_desired {
        return results;
    }
    let top: i64 = if results.len() > 0 { results[0].0 } else { 0 };
    let threshold: i64 = if top > 10_000 {
        500
    } else if top > 5_000 {
        300
    } else {
        100
    };
    if results.len() > minimum_desired * 2 {
        let filtered = keep_at_least(&results, threshold);
        if filtered.len() >= minimum_desired {
            return filtered;
        }
    }
    results
}


// ---------------------------------------------------------------------------
// Searching a catalog
// ---------------------------------------------------------------------------

/// The presentations of a library.
#[derive(Debug)]
pub struct LibraryCatalog {
    /// Entries in catalog order.
    pub entries: Vec<LibraryEntry>,
}

/// The names of entries.
pub open spec fn entry_views(v: Seq<LibraryEntry>) -> Seq<EntryNames> {
    v.map_values(|e: LibraryEntry| e@)
}

/// A prepared query: effective term, its lowercase form, the lowercase
/// query, the hymn number, composite parts and tokens.
pub type Prepared = (Seq<char>, Seq<char>, Seq<char>, Option<Seq<char>>, Seq<Seq<char>>, Seq<Seq<char>>);

/// How a trimmed, non-empty query is prepared: the effective term is the
/// normalized title, or the query itself when that is empty.
#[verifier::opaque]
pub open spec fn prepared_query(q: Seq<char>) -> Prepared {
    let ql = unicode_lowercase(q);
    let nq = normalized_title(q);
    let eff = if nq.len() == 0 {
        q
    } else {
        nq
    };
    let el = unicode_lowercase(eff);
    (eff, el, ql, hymn_number(q), composite_parts(eff), query_tokens(el))
}

/// The kept entries among the first `n`, with their scores, in catalog order.
pub open spec fn scored_entries(es: Seq<EntryNames>, p: Prepared, n: int) -> Seq<Ranked>
    decreases n,
{
    if n <= 0 {
        Seq::empty()
    } else {
        let prev = scored_entries(es, p, n - 1);
        match entry_score(es[n - 1], p.0, p.1, p.2, p.3, p.4, p.5) {
            Some(v) => prev.push((v, n - 1)),
            None => prev,
        }
    }
}

/// The ranking a query gets: nothing for a blank query; else the kept
/// entries best first (equal scores in catalog order), thresholded for at
/// least five results, and at most `max` of them.
pub open spec fn match_ranking(es: Seq<EntryNames>, query: Seq<char>, max: int) -> Seq<Ranked> {
    let q = trim(query);
    if q.len() == 0 {
        Seq::empty()
    } else {
        let r = threshold_filter(sorted_desc(scored_entries(es, prepared_query(q), es.len() as int)), 5);
        r.take(if max < r.len() { max } else { r.len() as int })
    }
}

proof fn lemma_scored_indices(es: Seq<EntryNames>, p: Prepared, n: int)
    requires
        0 <= n <= es.len(),
    ensures
        forall|k: int| 0 <= k < scored_entries(es, p, n).len() ==> 0 <= (#[trigger] scored_entries(es, p, n)[k]).1 < n,
    decreases n,
{
    if n > 0 {
        lemma_scored_indices(es, p, n - 1);
        let prev = scored_entries(es, p, n - 1);
        let cur = scored_entries(es, p, n);
        assert forall|k: int| 0 <= k < cur.len() implies 0 <= (#[trigger] cur[k]).1 < n by {
            if k < prev.len() {
                assert(cur[k] == prev[k]);
            }
        }
    }
}

proof fn lemma_sorted_members(s: Seq<Ranked>)
    ensures
        sorted_desc(s).len() == s.len(),
        forall|k: int| 0 <= k < sorted_desc(s).len() ==> exists|m: int| 0 <= m < s.len() && #[trigger] sorted_desc(s)[k] == s[m],
    decreases s.len(),
{
    if s.len() > 0 {
        let d = s.drop_last();
        lemma_sorted_members(d);
        lemma_insert_len(sorted_desc(d), s.last());
        assert forall|k: int| 0 <= k < sorted_desc(s).len() implies exists|m: int| 0 <= m < s.len() && #[trigger] sorted_desc(s)[k] == s[m] by {
            lemma_insert_members(sorted_desc(d), s.last(), k);
            if sorted_desc(s)[k] == s.last() {
                assert(sorted_desc(s)[k] == s[s.len() - 1]);
            } else {
                let m = choose|m: int| 0 <= m < sorted_desc(d).len() && insert_desc(sorted_desc(d), s.last())[k] == sorted_desc(d)[m];
                let m2 = choose|m2: int| 0 <= m2 < d.len() && #[trigger] sorted_desc(d)[m] == d[m2];
                assert(d[m2] == s[m2]);
            }
        }
    }
}

proof fn lemma_at_least_members(s: Seq<Ranked>, t: int)
    ensures
        at_least(s, t).len() <= s.len(),
        forall|k: int| 0 <= k < at_least(s, t).len() ==> exists|m: int| 0 <= m < s.len() && #[trigger] at_least(s, t)[k] == s[m],
    decreases s.len(),
{
    if s.len() > 0 {
        let d = s.drop_last();
        lemma_at_least_members(d, t);
        assert forall|k: int| 0 <= k < at_least(s, t).len() implies exists|m: int| 0 <= m < s.len() && #[trigger] at_least(s, t)[k] == s[m] by {
            if k < at_least(d, t).len() {
                let m = choose|m: int| 0 <= m < d.len() && #[trigger] at_least(d, t)[k] == d[m];
                assert(d[m] == s[m]);
            } else {
                assert(at_least(s, t)[k] == s[s.len() - 1]);
            }
        }
    }
}

proof fn lemma_threshold_members(so: Seq<Ranked>)
    ensures
        forall|k: int| 0 <= k < threshold_filter(so, 5).len() ==> exists|m: int| 0 <= m < so.len() && #[trigger] threshold_filter(so, 5)[k] == so[m],
{
    let top = if so.len() > 0 { so[0].0 } else { 0 };
    let threshold = if top > 10_000 { 500 } else if top > 5_000 { 300 } else { 100 };
    lemma_at_least_members(so, threshold);
    let r = threshold_filter(so, 5);
    assert forall|k: int| 0 <= k < r.len() implies exists|m: int| 0 <= m < so.len() && #[trigger] r[k] == so[m] by {
        if r != so {
            assert(r == at_least(so, threshold));
        } else {
            assert(r[k] == so[k]);
        }
    }
}

proof fn lemma_ranking_indices(es: Seq<EntryNames>, query: Seq<char>, max: int)
    requires
        max >= 0,
    ensures
        forall|k: int| 0 <= k < match_ranking(es, query, max).len() ==> 0 <= (#[trigger] match_ranking(es, query, max)[k]).1 < es.len(),
{
    let q = trim(query);
    if q.len() > 0 {
        let p = prepared_query(q);
        let sc = scored_entries(es, p, es.len() as int);
        lemma_scored_indices(es, p, es.len() as int);
        lemma_sorted_members(sc);
        let so = sorted_desc(sc);
        lemma_threshold_members(so);
        let r = threshold_filter(so, 5);
        assert forall|k: int| 0 <= k < r.len() implies 0 <= (#[trigger] r[k]).1 < es.len() by {
            let m = choose|m: int| 0 <= m < so.len() && #[trigger] threshold_filter(so, 5)[k] == so[m];
            let m2 = choose|m2: int| 0 <= m2 < sc.len() && #[trigger] so[m] == sc[m2];
            assert(0 <= sc[m2].1 < es.len());
        }
        let mr = match_ranking(es, query, max);
        let lim = if max < r.len() { max } else { r.len() as int };
        assert(mr == r.take(lim));
        assert forall|k: int| 0 <= k < mr.len() implies 0 <= (#[trigger] mr[k]).1 < es.len() by {
            assert(mr[k] == r[k]);
        }
    }
}

impl LibraryCatalog {
    /// Find matching presentations for a title query, best first: see
    /// [`match_ranking`].
    pub fn find_matches(&self, query: &str, max_results: usize) -> (r: Vec<LibraryEntry>)
        ensures
            ({
                let es = entry_views(self.entries@);
                let ranking = match_ranking(es, query@, max_results as int);
                entry_views(r@) == ranking.map_values(|x: Ranked| es[x.1])
            }),
    {
        let ghost es = entry_views(self.entries@);
        let ghost ranking = match_ranking(es, query@, max_results as int);
        let qc = trim_chars(chars_of(query).as_slice());
        if qc.len() == 0 {
            let empty: Vec<LibraryEntry> = Vec::new();
            proof {
                assert(entry_views(empty@) =~= ranking.map_values(|x: Ranked| es[x.1]));
            }
            return empty;
        }
        let q = string_of(qc.as_slice());
        let query_lower = to_lowercase(q.as_str());
        let normalized = normalize_name(q.as_str());
        let effective = if chars_of(normalized.as_str()).len() == 0 { q.clone() } else { normalized };
        let effective_lower = to_lowercase(effective.as_str());
        let hymn = match extract_hymn_number(q.as_str()) {
            Some(n) => Some(chars_of(n.as_str())),
            None => None,
        };
        let parts = parse_composite_query(effective.as_str());
        let tokens = tokenize_query(effective_lower.as_str());
        let ghost p = prepared_query(qc@);
        proof {
            reveal(prepared_query);
            assert(p.0 == effective@);
        }
        let mut scored: Vec<(i64, usize)> = Vec::new();
        let mut i: usize = 0;
        proof {
            assert(ranked_views(scored@) =~= Seq::<Ranked>::empty());
        }
        while i < self.entries.len()
            invariant
                i <= self.entries.len(),
                es == entry_views(self.entries@),
                p == prepared_query(qc@),
                p.0 == effective@,
                p.1 == effective_lower@,
                p.2 == query_lower@,
                p.3 == match hymn {
                    Some(n) => Some(n@),
                    None => None::<Seq<char>>,
                },
                p.4 == parts@.map_values(|x: Vec<char>| x@),
                p.5 == tokens@.map_values(|x: Vec<char>| x@),
                ranked_views(scored@) == scored_entries(es, p, i as int),
            decreases self.entries.len() - i,
        {
            proof {
                assert(es[i as int] == self.entries@[i as int]@);
            }
            match score_entry(
                &self.entries[i],
                effective.as_str(),
                effective_lower.as_str(),
                query_lower.as_str(),
                &hymn,
                &parts,
                &tokens,
            ) {
                Some(v) => {
                    let ghost before = scored@;
                    scored.push((v, i));
                    proof {
                        assert(ranked_views(scored@) =~= ranked_views(before).push((v as int, i as int)));
                    }
                },
                None => {},
            }
            i += 1;
        }
        let sorted = sort_ranked(scored);
        let kept = apply_threshold_filter(sorted, 5);
        let n = if max_results < kept.len() { max_results } else { kept.len() };
        let mut out: Vec<LibraryEntry> = Vec::new();
        proof {
            lemma_ranking_indices(es, query@, max_results as int);
        }
        let mut k: usize = 0;
        while k < n
            invariant
                k <= n <= kept.len(),
                es == entry_views(self.entries@),
                ranking == match_ranking(es, query@, max_results as int),
                ranking == ranked_views(kept@).take(n as int),
                forall|j: int| 0 <= j < ranking.len() ==> 0 <= (#[trigger] ranking[j]).1 < es.len(),
                out@.len() == k,
                forall|j: int| 0 <= j < k ==> (#[trigger] out@[j])@ == es[ranking[j].1],
            decreases n - k,
        {
            let idx = kept[k].1;
            proof {
                assert(ranking[k as int] == ranked_views(kept@)[k as int]);
                assert(idx < self.entries.len());
                assert(es[idx as int] == self.entries@[idx as int]@);
            }
            out.push(self.entries[idx].clone());
            k += 1;
        }
        proof {
            assert(entry_views(out@) =~= ranking.map_values(|x: Ranked| es[x.1]));
        }
        out
    }
}

// ---------------------------------------------------------------------------
// Law: Lord's Prayer queries rank the prayer
// ---------------------------------------------------------------------------

/// A running score of the earlier rules: quality at most 3, and the top
/// quality only with a score of at least 14,000.
pub open spec fn early_score_bounds(s: Scored) -> bool {
    &&& 0 <= s.1 <= 3
    &&& s.1 == 3 ==> s.0 >= 14_000
}

proof fn lemma_tokens_rule_bounds(e: EntryNames, tokens: Seq<Seq<char>>, n: int, s: Scored)
    requires
        early_score_bounds(s),
    ensures
        early_score_bounds(tokens_rule(e, tokens, n, s)),
        tokens_rule(e, tokens, n, s).0 >= s.0,
        tokens_rule(e, tokens, n, s).1 == 3 ==> s.1 == 3,
    decreases n,
{
    if n > 0 {
        lemma_tokens_rule_bounds(e, tokens, n - 1, s);
    }
}

/// The hymn number occurs in the lowercase file name as `#n`, ` n ` or `-n`.
pub open spec fn hymn_number_in_file_name(e: EntryNames, hymn_number: Option<Seq<char>>) -> bool {
    match hymn_number {
        Some(n) => contains(e.2, "#"@ + n) || contains(e.2, " "@ + n + " "@) || contains(e.2, "-"@ + n),
        None => false,
    }
}

/// Law: for a query whose lowercase text contains "lord's prayer" or "our
/// father", an entry whose lowercase title or file name contains "lord's
/// prayer" is kept with a score of at least 10,000 (at least 9,000 when
/// the query's hymn number already matched its file name), and one that
/// contains "our father" with a score of at least 8,000. `score_entry`
/// returns these scores and `find_matches` ranks by them.
pub proof fn law_lords_prayer_queries_score_the_prayer(
    e: EntryNames,
    term: Seq<char>,
    term_lower: Seq<char>,
    query_lower: Seq<char>,
    hymn_number: Option<Seq<char>>,
    composite_parts: Seq<Seq<char>>,
    tokens: Seq<Seq<char>>,
)
    requires
        contains(query_lower, "lord's prayer"@) || contains(query_lower, "our father"@),
    ensures
        (contains(e.3, "lord's prayer"@) || contains(e.2, "lord's prayer"@)) ==> (entry_score(
            e,
            term,
            term_lower,
            query_lower,
            hymn_number,
            composite_parts,
            tokens,
        ) matches Some(v) && v >= 9_000 && (v >= 10_000 || hymn_number_in_file_name(e, hymn_number))),
        (contains(e.3, "our father"@) || contains(e.2, "our father"@)) ==> (entry_score(
            e,
            term,
            term_lower,
            query_lower,
            hymn_number,
            composite_parts,
            tokens,
        ) matches Some(v) && v >= 8_000),
{
    reveal(entry_score);
    let base = max_int(skim_or_zero(e.1, term), skim_or_zero(e.0, term));
    let s1 = containment_rule(e, query_lower, (base, 0));
    let s2 = term_rule(e, term, term_lower, s1);
    let s3 = composite_rule(e, composite_parts, s2);
    assert(early_score_bounds(s1));
    assert(early_score_bounds(s2));
    assert(early_score_bounds(s3));
    lemma_tokens_rule_bounds(e, tokens, tokens.len() as int, s3);
    let s4 = tokens_rule(e, tokens, tokens.len() as int, s3);
    let s5 = hymn_rule(e, hymn_number, s4);
    assert(s5.1 == 3 ==> s5.0 >= 9_000);
    assert(s5.1 == 3 && !hymn_number_in_file_name(e, hymn_number) ==> s5.0 >= 14_000);
    let s6 = prayer_rule(e, query_lower, s5);
    assert(s6.0 >= s5.0);
}

proof fn lemma_insert_desc_contains(s: Seq<Ranked>, x: Ranked)
    ensures
        insert_desc(s, x).contains(x),
        forall|y: Ranked| s.contains(y) ==> #[trigger] insert_desc(s, x).contains(y),
    decreases s.len(),
{
    if s.len() == 0 {
        assert(insert_desc(s, x)[0] == x);
    } else if s[0].0 >= x.0 {
        let t = s.drop_first();
        lemma_insert_desc_contains(t, x);
        let r = seq![s[0]] + insert_desc(t, x);
        let i = choose|i: int| 0 <= i < insert_desc(t, x).len() && insert_desc(t, x)[i] == x;
        assert(r[i + 1] == x);
        assert forall|y: Ranked| s.contains(y) implies #[trigger] insert_desc(s, x).contains(y) by {
            let j = choose|j: int| 0 <= j < s.len() && s[j] == y;
            if j == 0 {
                assert(r[0] == y);
            } else {
                assert(t[j - 1] == y);
                assert(t.contains(y));
                assert(insert_desc(t, x).contains(y));
                let m = choose|m: int| 0 <= m < insert_desc(t, x).len() && insert_desc(t, x)[m] == y;
                assert(r[m + 1] == y);
            }
        }
    } else {
        let r = seq![x] + s;
        assert(r[0] == x);
        assert forall|y: Ranked| s.contains(y) implies #[trigger] insert_desc(s, x).contains(y) by {
            let j = choose|j: int| 0 <= j < s.len() && s[j] == y;
            assert(r[j + 1] == y);
        }
    }
}

proof fn lemma_sorted_desc_contains(s: Seq<Ranked>, y: Ranked)
    requires
        s.contains(y),
    ensures
        sorted_desc(s).contains(y),
    decreases s.len(),
{
    let d = s.drop_last();
    lemma_insert_desc_contains(sorted_desc(d), s.last());
    if s.last() != y {
        let j = choose|j: int| 0 <= j < s.len() && s[j] == y;
        assert(d[j] == y);
        lemma_sorted_desc_contains(d, y);
    }
}

proof fn lemma_at_least_contains(s: Seq<Ranked>, t: int, y: Ranked)
    requires
        s.contains(y),
        y.0 >= t,
    ensures
        at_least(s, t).contains(y),
    decreases s.len(),
{
    let d = s.drop_last();
    if s.last() == y {
        assert(at_least(s, t) == at_least(d, t).push(y));
        assert(at_least(d, t).push(y)[at_least(d, t).len() as int] == y);
    } else {
        let j = choose|j: int| 0 <= j < s.len() && s[j] == y;
        assert(d[j] == y);
        lemma_at_least_contains(d, t, y);
        let i = choose|i: int| 0 <= i < at_least(d, t).len() && at_least(d, t)[i] == y;
        if s.last().0 >= t {
            assert(at_least(d, t).push(s.last())[i] == y);
        }
    }
}

proof fn lemma_scored_contains(es: Seq<EntryNames>, p: Prepared, n: int, k: int, v: int)
    requires
        0 <= k < n <= es.len(),
        entry_score(es[k], p.0, p.1, p.2, p.3, p.4, p.5) == Some(v),
    ensures
        scored_entries(es, p, n).contains((v, k)),
    decreases n,
{
    let prev = scored_entries(es, p, n - 1);
    if k == n - 1 {
        assert(scored_entries(es, p, n) == prev.push((v, k)));
        assert(prev.push((v, k))[prev.len() as int] == (v, k));
    } else {
        lemma_scored_contains(es, p, n - 1, k, v);
        let i = choose|i: int| 0 <= i < prev.len() && prev[i] == (v, k);
        match entry_score(es[n - 1], p.0, p.1, p.2, p.3, p.4, p.5) {
            Some(w) => {
                assert(prev.push((w, n - 1))[i] == (v, k));
            },
            None => {},
        }
    }
}

/// Law: with room for every entry, a search for a non-blank query returns
/// every entry the query scores at 500 or more, with that score: the
/// relevance threshold never drops such an entry.
pub proof fn law_well_scored_entries_are_found(es: Seq<EntryNames>, query: Seq<char>, max: int, k: int, v: int)
    requires
        trim(query).len() > 0,
        max >= es.len(),
        0 <= k < es.len(),
        ({
            let p = prepared_query(trim(query));
            entry_score(es[k], p.0, p.1, p.2, p.3, p.4, p.5) == Some(v)
        }),
        v >= 500,
    ensures
        match_ranking(es, query, max).contains((v, k)),
{
    let q = trim(query);
    let p = prepared_query(q);
    let sc = scored_entries(es, p, es.len() as int);
    lemma_scored_contains(es, p, es.len() as int, k, v);
    lemma_scored_indices(es, p, es.len() as int);
    let sd = sorted_desc(sc);
    lemma_sorted_desc_contains(sc, (v, k));
    lemma_sorted_members(sc);
    let r = threshold_filter(sd, 5);
    if sd.len() > 5 {
        let top = sd[0].0;
        let threshold = if top > 10_000 {
            500
        } else if top > 5_000 {
            300
        } else {
            100
        };
        lemma_at_least_contains(sd, threshold, (v, k));
    }
    assert(r.contains((v, k)));
    assert(r.len() <= sd.len()) by {
        if sd.len() > 5 {
            let top = sd[0].0;
            let threshold = if top > 10_000 {
                500
            } else if top > 5_000 {
                300
            } else {
                100
            };
            lemma_at_least_len(sd, threshold);
        }
    }
    lemma_scored_len(es, p, es.len() as int);
    assert(r.take(r.len() as int) =~= r);
}

proof fn lemma_at_least_len(s: Seq<Ranked>, t: int)
    ensures
        at_least(s, t).len() <= s.len(),
    decreases s.len(),
{
    if s.len() > 0 {
        lemma_at_least_len(s.drop_last(), t);
    }
}

proof fn lemma_scored_len(es: Seq<EntryNames>, p: Prepared, n: int)
    ensures
        scored_entries(es, p, n).len() <= if n < 0 { 0 } else { n },
    decreases n,
{
    if n > 0 {
        lemma_scored_len(es, p, n - 1);
    }
}

/// Law: searching, with room for every entry, for a query whose lowercase
/// text contains "our father" or "lord's prayer" returns every entry whose
/// lowercase title or file name contains "lord's prayer" or "our father",
/// scored at least 8,000.
pub proof fn law_prayer_queries_find_the_prayer(es: Seq<EntryNames>, query: Seq<char>, max: int, k: int)
    requires
        trim(query).len() > 0,
        contains(unicode_lowercase(trim(query)), "our father"@) || contains(unicode_lowercase(trim(query)), "lord's prayer"@),
        max >= es.len(),
        0 <= k < es.len(),
        contains(es[k].3, "lord's prayer"@) || contains(es[k].2, "lord's prayer"@) || contains(es[k].3, "our father"@)
            || contains(es[k].2, "our father"@),
    ensures
        exists|v: int| v >= 8_000 && #[trigger] match_ranking(es, query, max).contains((v, k)),
{
    let q = trim(query);
    let p = prepared_query(q);
    assert(p.2 == unicode_lowercase(q)) by {
        reveal(prepared_query);
    }
    law_lords_prayer_queries_score_the_prayer(es[k], p.0, p.1, p.2, p.3, p.4, p.5);
    let v = entry_score(es[k], p.0, p.1, p.2, p.3, p.4, p.5)->0;
    law_well_scored_entries_are_found(es, query, max, k, v);
}

} // verus!

//! Character-level text primitives shared by the format modules.
//!
//! Strings are modelled by their `Seq<char>` views. The few Unicode
//! classifications that std computes from its tables are named by
//! uninterpreted spec functions; everything else is defined here directly.
use vstd::prelude::*;
use vstd::utf8::*;

verus! {

/// The characters of a string slice, in order.
pub fn chars_of(s: &str) -> (v: Vec<char>)
    ensures
        v@ == s@,
{
    broadcast use vstd::string::group_string_axioms;

    let mut v: Vec<char> = Vec::new();
    for c in it: s.chars()
        invariant
            v@ == it.seq().take(it.index() as int),
            it.seq() == s@,
    {
        v.push(c);
    }
    v
}

/// Collects characters into an owned `String` (std `FromIterator<char>`).
#[verifier::external_body]
pub fn string_of(v: &[char]) -> (s: String)
    ensures
        s@ == v@,
{
    v.iter().collect()
}

/// Decodes UTF-8 bytes (std `String::from_utf8`): `Some` exactly when the
/// bytes are valid UTF-8, holding the decoded characters.
#[verifier::external_body]
pub fn string_from_utf8(bytes: Vec<u8>) -> (r: Option<String>)
    ensures
        r is Some <==> valid_utf8(bytes@),
        r matches Some(s) ==> s@ == decode_utf8(bytes@),
{
    String::from_utf8(bytes).ok()
}

/// The UTF-8 encoding of an owned string (std `String::into_bytes`).
#[verifier::external_body]
pub fn string_into_bytes(s: String) -> (bytes: Vec<u8>)
    ensures
        bytes@ == encode_utf8(s@),
{
    s.into_bytes()
}

/// What std `String::from_utf8_lossy` yields for a byte sequence.
pub uninterp spec fn utf8_lossy(bytes: Seq<u8>) -> Seq<char>;

/// Lossy UTF-8 decoding (std `String::from_utf8_lossy`). Valid input decodes
/// exactly; invalid sequences become replacement characters, which is not
/// stated beyond the name.
#[verifier::external_body]
pub fn string_from_utf8_lossy(bytes: &[u8]) -> (s: String)
    ensures
        s@ == utf8_lossy(bytes@),
        valid_utf8(bytes@) ==> s@ == decode_utf8(bytes@),
{
    String::from_utf8_lossy(bytes).into_owned()
}

/// Unicode `White_Space` membership, as std `char::is_whitespace` computes it.
pub uninterp spec fn unicode_white_space(c: char) -> bool;

/// std `char::is_whitespace`.
#[verifier::external_body]
pub fn is_whitespace(c: char) -> (r: bool)
    ensures
        r == unicode_white_space(c),
{
    c.is_whitespace()
}

/// Unicode alphabetic-or-numeric membership, as std `char::is_alphanumeric`
/// computes it.
pub uninterp spec fn unicode_alphanumeric(c: char) -> bool;

/// std `char::is_alphanumeric`.
#[verifier::external_body]
pub fn is_alphanumeric(c: char) -> (r: bool)
    ensures
        r == unicode_alphanumeric(c),
{
    c.is_alphanumeric()
}

/// The Unicode lowercase mapping of a string, as std `str::to_lowercase`
/// computes it.
pub uninterp spec fn unicode_lowercase(s: Seq<char>) -> Seq<char>;

/// std `str::to_lowercase`.
#[verifier::external_body]
pub fn to_lowercase(s: &str) -> (r: String)
    ensures
        r@ == unicode_lowercase(s@),
{
    s.to_lowercase()
}

/// The text std `Debug` prints for a string: the string in double quotes
/// with quotes, backslashes and non-printable characters escaped.
pub uninterp spec fn debug_quoted(s: Seq<char>) -> Seq<char>;

/// std `<str as Debug>::fmt`, rendered through `format!("{:?}", ..)`.
#[verifier::external_body]
pub fn str_debug(s: &str) -> (r: String)
    ensures
        r@ == debug_quoted(s@),
{
    format!("{:?}", s)
}

/// Unicode general category `Cc`, which std `char::is_control` tests.
pub open spec fn is_control(c: char) -> bool {
    (c as u32) <= 0x1f || (0x7f <= (c as u32) && (c as u32) <= 0x9f)
}

pub fn char_is_control(c: char) -> (r: bool)
    ensures
        r == is_control(c),
{
    let v = c as u32;
    v <= 0x1f || (0x7f <= v && v <= 0x9f)
}

/// Whether any character of the sequence is a control character.
pub open spec fn has_control(s: Seq<char>) -> bool {
    exists|i: int| 0 <= i < s.len() && #[trigger] is_control(s[i])
}

pub fn any_control(s: &[char]) -> (r: bool)
    ensures
        r == has_control(s@),
{
    let mut i: usize = 0;
    while i < s.len()
        invariant
            i <= s.len(),
            forall|j: int| 0 <= j < i ==> !#[trigger] is_control(s@[j]),
        decreases s.len() - i,
    {
        if char_is_control(s[i]) {
            return true;
        }
        i += 1;
    }
    false
}

/// Leading `White_Space` removed.
pub open spec fn trim_start(s: Seq<char>) -> Seq<char>
    decreases s.len(),
{
    if s.len() > 0 && unicode_white_space(s[0]) {
        trim_start(s.drop_first())
    } else {
        s
    }
}

/// Trailing `White_Space` removed.
pub open spec fn trim_end(s: Seq<char>) -> Seq<char>
    decreases s.len(),
{
    if s.len() > 0 && unicode_white_space(s.last()) {
        trim_end(s.drop_last())
    } else {
        s
    }
}

/// Leading and trailing `White_Space` removed (std `str::trim`).
pub open spec fn trim(s: Seq<char>) -> Seq<char> {
    trim_end(trim_start(s))
}

/// Index of the first character that `trim_start` keeps.
pub fn trim_start_index(s: &[char]) -> (i: usize)
    ensures
        i <= s.len(),
        trim_start(s@) == s@.skip(i as int),
{
    let mut i: usize = 0;
    proof {
        assert(s@.skip(0) == s@);
    }
    while i < s.len() && is_whitespace(s[i])
        invariant
            i <= s.len(),
            trim_start(s@) == trim_start(s@.skip(i as int)),
        decreases s.len() - i,
    {
        proof {
            assert(s@.skip(i as int).drop_first() == s@.skip(i + 1));
        }
        i += 1;
    }
    i
}

/// One past the last character that `trim_end` keeps.
pub fn trim_end_index(s: &[char]) -> (j: usize)
    ensures
        j <= s.len(),
        trim_end(s@) == s@.take(j as int),
{
    let mut j: usize = s.len();
    proof {
        assert(s@.take(s.len() as int) == s@);
    }
    while j > 0 && is_whitespace(s[j - 1])
        invariant
            j <= s.len(),
            trim_end(s@) == trim_end(s@.take(j as int)),
        decreases j,
    {
        proof {
            assert(s@.take(j as int).drop_last() == s@.take(j - 1));
        }
        j -= 1;
    }
    j
}

pub proof fn lemma_trim_end_of_skip(s: Seq<char>, i: int, j: int)
    requires
        0 <= i <= s.len(),
        0 <= j <= s.len(),
        trim_end(s) == s.take(j),
        trim_start(s) == s.skip(i),
    ensures
        i <= j ==> trim(s) == s.subrange(i, j),
        j < i ==> trim(s).len() == 0,
    decreases s.len(),
{
    lemma_trim_end_general(s.skip(i), s, i, j);
}

proof fn lemma_trim_end_general(t: Seq<char>, s: Seq<char>, i: int, j: int)
    requires
        0 <= i <= s.len(),
        0 <= j <= s.len(),
        t == s.skip(i),
        trim_end(s) == s.take(j),
    ensures
        i <= j ==> trim_end(t) == s.subrange(i, j),
        j < i ==> trim_end(t).len() == 0,
    decreases t.len(),
{
    lemma_trim_end_shape(s, j);
    if t.len() > 0 && unicode_white_space(t.last()) {
        // the last character of t is s[s.len()-1], which trim_end removes
        assert(t.last() == s[s.len() - 1]);
        assert(j < s.len());
        let s2 = s.drop_last();
        assert(trim_end(s) == trim_end(s2));
        assert(t.drop_last() == s2.skip(i));
        assert(s2.take(j) == s.take(j));
        lemma_trim_end_general(t.drop_last(), s2, i, j);
        if i <= j {
            assert(s2.subrange(i, j) == s.subrange(i, j));
        }
    } else {
        if t.len() > 0 {
            assert(t.last() == s[s.len() - 1]);
            assert(!unicode_white_space(s.last()));
            assert(trim_end(s) == s);
            assert(s.take(j).len() == s.len());
            assert(j == s.len());
            assert(t == s.subrange(i, j));
        } else {
            assert(i == s.len());
            if i <= j {
                assert(j == s.len());
                assert(s.subrange(i, j) =~= t);
            }
        }
    }
}

/// `trim_end(s)` is a prefix of `s` whose removed tail is all white space.
pub proof fn lemma_trim_end_shape(s: Seq<char>, j: int)
    requires
        0 <= j <= s.len(),
        trim_end(s) == s.take(j),
    ensures
        forall|k: int| j <= k < s.len() ==> unicode_white_space(#[trigger] s[k]),
        j > 0 ==> !unicode_white_space(s[j - 1]),
    decreases s.len(),
{
    if s.len() > 0 && unicode_white_space(s.last()) {
        let s2 = s.drop_last();
        assert(trim_end(s) == trim_end(s2));
        lemma_trim_end_len(s2);
        assert(j <= s2.len());
        assert(s2.take(j) =~= s.take(j));
        lemma_trim_end_shape(s2, j);
        assert forall|k: int| j <= k < s.len() implies unicode_white_space(#[trigger] s[k]) by {
            if k < s.len() - 1 {
                assert(s2[k] == s[k]);
            }
        }
        if j > 0 {
            assert(s2[j - 1] == s[j - 1]);
        }
    } else {
        assert(s.take(j).len() == s.len());
    }
}

pub proof fn lemma_trim_end_len(s: Seq<char>)
    ensures
        trim_end(s).len() <= s.len(),
    decreases s.len(),
{
    if s.len() > 0 && unicode_white_space(s.last()) {
        lemma_trim_end_len(s.drop_last());
    }
}

/// Exec `str::trim` on a character sequence.
pub fn trim_chars(s: &[char]) -> (r: Vec<char>)
    ensures
        r@ == trim(s@),
{
    let i = trim_start_index(s);
    let j = trim_end_index(s);
    proof {
        lemma_trim_end_of_skip(s@, i as int, j as int);
    }
    let mut r: Vec<char> = Vec::new();
    if i <= j {
        let mut k = i;
        while k < j
            invariant
                i <= k <= j <= s.len(),
                r@ == s@.subrange(i as int, k as int),
            decreases j - k,
        {
            r.push(s[k]);
            k += 1;
        }
    }
    proof {
        if j < i {
            assert(r@ =~= trim(s@));
        }
    }
    r
}

/// Exec `str::trim` returning an owned string.
pub fn trim_str(s: &str) -> (r: String)
    ensures
        r@ == trim(s@),
{
    let v = chars_of(s);
    let t = trim_chars(v.as_slice());
    string_of(t.as_slice())
}

// ---------------------------------------------------------------------------
// Decimal rendering
// ---------------------------------------------------------------------------

/// The ASCII digit for `d < 10`.
pub open spec fn digit_char(d: nat) -> char {
    ((48 + d) as u8) as char
}

/// Decimal rendering of a natural number, as std `Display` prints it.
pub open spec fn decimal(n: nat) -> Seq<char>
    decreases n,
{
    if n < 10 {
        seq![digit_char(n)]
    } else {
        decimal(n / 10).push(digit_char(n % 10))
    }
}

/// Decimal rendering of an integer with a leading `-` when negative.
pub open spec fn signed_decimal(v: int) -> Seq<char> {
    if v < 0 {
        seq!['-'] + decimal((-v) as nat)
    } else {
        decimal(v as nat)
    }
}

pub fn digit(d: u64) -> (c: char)
    requires
        d < 10,
    ensures
        c == digit_char(d as nat),
{
    let b: u8 = 48u8 + (d as u8);
    b as char
}

/// Appends the decimal rendering of `n`.
pub fn push_decimal(out: &mut Vec<char>, n: u64)
    ensures
        final(out)@ == old(out)@ + decimal(n as nat),
    decreases n,
{
    if n >= 10 {
        push_decimal(out, n / 10);
    }
    out.push(digit(n % 10));
    proof {
        assert(final(out)@ =~= old(out)@ + decimal(n as nat));
    }
}

/// Appends the signed decimal rendering of `v`.
pub fn push_signed_decimal(out: &mut Vec<char>, v: i64)
    ensures
        final(out)@ == old(out)@ + signed_decimal(v as int),
{
    if v < 0 {
        out.push('-');
        let wide: i128 = v as i128;
        let mag: u64 = (0i128 - wide) as u64;
        push_decimal(out, mag);
        proof {
            assert(final(out)@ =~= old(out)@ + signed_decimal(v as int));
        }
    } else {
        push_decimal(out, v as u64);
    }
}

/// Appends every character of `s`.
pub fn push_all(out: &mut Vec<char>, s: &[char])
    ensures
        final(out)@ == old(out)@ + s@,
{
    let mut i: usize = 0;
    while i < s.len()
        invariant
            i <= s.len(),
            out@ == old(out)@ + s@.take(i as int),
        decreases s.len() - i,
    {
        out.push(s[i]);
        i += 1;
        proof {
            assert(s@.take(i as int) == s@.take(i - 1).push(s@[i - 1]));
        }
    }
    proof {
        assert(s@.take(s.len() as int) == s@);
    }
}

/// Appends every character of a string slice.
pub fn push_str(out: &mut Vec<char>, s: &str)
    ensures
        final(out)@ == old(out)@ + s@,
{
    let v = chars_of(s);
    push_all(out, v.as_slice());
}

// ---------------------------------------------------------------------------
// Lexicographic order on character sequences
// ---------------------------------------------------------------------------

/// Lexicographic `<=` by code point, the order std gives `String`.
pub open spec fn char_seq_le(a: Seq<char>, b: Seq<char>) -> bool
    decreases a.len(),
{
    if a.len() == 0 {
        true
    } else if b.len() == 0 {
        false
    } else if a[0] == b[0] {
        char_seq_le(a.drop_first(), b.drop_first())
    } else {
        (a[0] as u32) < (b[0] as u32)
    }
}

pub proof fn lemma_char_seq_le_refl(a: Seq<char>)
    ensures
        char_seq_le(a, a),
    decreases a.len(),
{
    if a.len() > 0 {
        lemma_char_seq_le_refl(a.drop_first());
    }
}

pub proof fn lemma_char_seq_le_total(a: Seq<char>, b: Seq<char>)
    ensures
        char_seq_le(a, b) || char_seq_le(b, a),
    decreases a.len(),
{
    if a.len() > 0 && b.len() > 0 {
        if a[0] == b[0] {
            lemma_char_seq_le_total(a.drop_first(), b.drop_first());
        } else {
            vstd::utf8::char_u32_cast(a[0], a[0] as u32);
            vstd::utf8::char_u32_cast(b[0], b[0] as u32);
        }
    }
}

pub proof fn lemma_char_seq_le_antisym(a: Seq<char>, b: Seq<char>)
    requires
        char_seq_le(a, b),
        char_seq_le(b, a),
    ensures
        a == b,
    decreases a.len(),
{
    if a.len() > 0 && b.len() > 0 {
        if a[0] == b[0] {
            lemma_char_seq_le_antisym(a.drop_first(), b.drop_first());
            assert(a =~= seq![a[0]] + a.drop_first());
            assert(b =~= seq![b[0]] + b.drop_first());
        }
    } else {
        assert(a.len() == 0 && b.len() == 0);
        assert(a =~= b);
    }
}

pub proof fn lemma_char_seq_le_trans(a: Seq<char>, b: Seq<char>, c: Seq<char>)
    requires
        char_seq_le(a, b),
        char_seq_le(b, c),
    ensures
        char_seq_le(a, c),
    decreases a.len(),
{
    if a.len() > 0 && b.len() > 0 && c.len() > 0 {
        if a[0] == b[0] && b[0] == c[0] {
            lemma_char_seq_le_trans(a.drop_first(), b.drop_first(), c.drop_first());
        }
    }
}

/// Exec lexicographic comparison.
pub fn chars_le(a: &[char], b: &[char]) -> (r: bool)
    ensures
        r == char_seq_le(a@, b@),
{
    let mut i: usize = 0;
    proof {
        assert(a@.skip(0) == a@);
        assert(b@.skip(0) == b@);
    }
    loop
        invariant
            i <= a.len(),
            i <= b.len(),
            char_seq_le(a@, b@) == char_seq_le(a@.skip(i as int), b@.skip(i as int)),
        decreases a.len() - i,
    {
        if i == a.len() {
            return true;
        }
        if i == b.len() {
            return false;
        }
        if a[i] != b[i] {
            return (a[i] as u32) < (b[i] as u32);
        }
        proof {
            assert(a@.skip(i as int).drop_first() == a@.skip(i + 1));
            assert(b@.skip(i as int).drop_first() == b@.skip(i + 1));
        }
        i += 1;
    }
}

/// Exec equality of character slices.
pub fn chars_eq(a: &[char], b: &[char]) -> (r: bool)
    ensures
        r == (a@ == b@),
{
    if a.len() != b.len() {
        return false;
    }
    let mut i: usize = 0;
    while i < a.len()
        invariant
            a.len() == b.len(),
            i <= a.len(),
            a@.take(i as int) == b@.take(i as int),
        decreases a.len() - i,
    {
        if a[i] != b[i] {
            return false;
        }
        i += 1;
        proof {
            assert(a@.take(i as int) == a@.take(i - 1).push(a@[i - 1]));
            assert(b@.take(i as int) == b@.take(i - 1).push(b@[i - 1]));
        }
    }
    proof {
        assert(a@.take(a.len() as int) == a@);
        assert(b@.take(b.len() as int) == b@);
    }
    true
}

/// Exec equality of string slices by their characters.
pub fn str_eq(a: &str, b: &str) -> (r: bool)
    ensures
        r == (a@ == b@),
{
    let x = chars_of(a);
    let y = chars_of(b);
    chars_eq(x.as_slice(), y.as_slice())
}

// ---------------------------------------------------------------------------
// Stable ordering of keyed items
// ---------------------------------------------------------------------------

/// `order` lists every index below `n` exactly once.
pub open spec fn is_permutation_of_range(order: Seq<usize>, n: nat) -> bool {
    &&& order.len() == n
    &&& order.no_duplicates()
    &&& forall|i: int| 0 <= i < order.len() ==> #[trigger] order[i] < n
}

/// A permutation of `0..n` takes every value below `n`.
pub proof fn lemma_permutation_covers_range(order: Seq<usize>, n: nat)
    requires
        is_permutation_of_range(order, n),
    ensures
        forall|k: usize| k < n ==> #[trigger] order.contains(k),
{
    let oi = order.map_values(|x: usize| x as int);
    assert(oi.no_duplicates()) by {
        assert forall|a: int, b: int| 0 <= a < oi.len() && 0 <= b < oi.len() && a != b implies oi[a] != oi[b] by {
            assert(order[a] != order[b]);
        }
    }
    oi.unique_seq_to_set();
    let r = vstd::set_lib::set_int_range(0, n as int);
    vstd::set_lib::lemma_int_range(0, n as int);
    assert(oi.to_set().subset_of(r)) by {
        assert forall|x: int| oi.to_set().contains(x) implies r.contains(x) by {
            let i = choose|i: int| 0 <= i < oi.len() && oi[i] == x;
            assert(order[i] < n);
        }
    }
    vstd::set_lib::lemma_len_subset(oi.to_set(), r);
    vstd::set_lib::lemma_subset_equality(oi.to_set(), r);
    assert forall|k: usize| k < n implies #[trigger] order.contains(k) by {
        assert(r.contains(k as int));
        assert(oi.to_set().contains(k as int));
        let i = choose|i: int| 0 <= i < oi.len() && oi[i] == k as int;
        assert(order[i] == k);
    }
}

/// `order` visits `keys` in non-decreasing key order, ties by position.
pub open spec fn is_stable_key_order(keys: Seq<Seq<char>>, order: Seq<usize>) -> bool {
    forall|i: int, j: int|
        #![trigger order[i], order[j]]
        0 <= i < j < order.len() ==> {
            let a = keys[order[i] as int];
            let b = keys[order[j] as int];
            &&& char_seq_le(a, b)
            &&& (a == b ==> order[i] < order[j])
        }
}

/// The positions of `keys` in stable ascending key order (the order that
/// std's stable `sort_by` on the keys produces).
pub fn stable_key_order(keys: &Vec<Vec<char>>) -> (order: Vec<usize>)
    ensures
        is_permutation_of_range(order@, keys@.len() as nat),
        is_stable_key_order(keys@.map_values(|k: Vec<char>| k@), order@),
{
    let ghost kv = keys@.map_values(|k: Vec<char>| k@);
    let mut order: Vec<usize> = Vec::new();
    let mut n: usize = 0;
    while n < keys.len()
        invariant
            n <= keys.len(),
            kv == keys@.map_values(|k: Vec<char>| k@),
            is_permutation_of_range(order@, n as nat),
            is_stable_key_order(kv, order@),
        decreases keys.len() - n,
    {
        // insert n after every element whose key is <= keys[n]
        let mut pos: usize = order.len();
        while pos > 0 && !chars_le(keys[order[pos - 1]].as_slice(), keys[n].as_slice())
            invariant
                pos <= order.len(),
                n < keys.len(),
                kv == keys@.map_values(|k: Vec<char>| k@),
                is_permutation_of_range(order@, n as nat),
                is_stable_key_order(kv, order@),
                forall|k: int| pos <= k < order.len() ==> !char_seq_le(kv[order@[k] as int], kv[n as int]),
            decreases pos,
        {
            pos -= 1;
        }
        proof {
            // facts about the insertion point
            assert forall|k: int| 0 <= k < pos implies char_seq_le(kv[order@[k] as int], kv[n as int]) by {
                if pos > 0 {
                    assert(char_seq_le(kv[order@[pos - 1] as int], kv[n as int]));
                    if k < pos - 1 {
                        lemma_char_seq_le_trans(kv[order@[k] as int], kv[order@[pos - 1] as int], kv[n as int]);
                    }
                }
            }
            assert forall|k: int| pos <= k < order.len() implies char_seq_le(kv[n as int], kv[order@[k] as int]) && kv[n as int] != kv[order@[k] as int] by {
                lemma_char_seq_le_total(kv[n as int], kv[order@[k] as int]);
                lemma_char_seq_le_refl(kv[n as int]);
            }
        }
        let ghost old_order = order@;
        order.insert(pos, n);
        proof {
            assert(order@ == old_order.insert(pos as int, n));
            assert forall|i: int| 0 <= i < order@.len() implies #[trigger] order@[i] < n + 1 by {
                if i < pos {
                    assert(order@[i] == old_order[i]);
                } else if i > pos {
                    assert(order@[i] == old_order[i - 1]);
                }
            }
            assert(order@.no_duplicates()) by {
                assert forall|i: int, j: int| 0 <= i < j < order@.len() implies order@[i] != order@[j] by {
                    if i < pos && j < pos {
                        assert(order@[i] == old_order[i] && order@[j] == old_order[j]);
                    } else if i < pos && j == pos {
                        assert(order@[i] == old_order[i]);
                    } else if i < pos && j > pos {
                        assert(order@[i] == old_order[i] && order@[j] == old_order[j - 1]);
                    } else if i == pos {
                        assert(order@[j] == old_order[j - 1]);
                    } else {
                        assert(order@[i] == old_order[i - 1] && order@[j] == old_order[j - 1]);
                    }
                }
            }
            assert(is_stable_key_order(kv, order@)) by {
                assert forall|i: int, j: int|
                    #![trigger order@[i], order@[j]]
                    0 <= i < j < order@.len() implies {
                    let a = kv[order@[i] as int];
                    let b = kv[order@[j] as int];
                    &&& char_seq_le(a, b)
                    &&& (a == b ==> order@[i] < order@[j])
                } by {
                    if i < pos && j < pos {
                        assert(order@[i] == old_order[i] && order@[j] == old_order[j]);
                    } else if i < pos && j == pos {
                        assert(order@[i] == old_order[i]);
                    } else if i < pos && j > pos {
                        assert(order@[i] == old_order[i] && order@[j] == old_order[j - 1]);
                    } else if i == pos {
                        assert(order@[j] == old_order[j - 1]);
                    } else {
                        assert(order@[i] == old_order[i - 1] && order@[j] == old_order[j - 1]);
                    }
                }
            }
        }
        n += 1;
    }
    order
}


// ---------------------------------------------------------------------------
// Prefixes, replacement, splitting and joining
// ---------------------------------------------------------------------------

/// Exec `starts_with` on character slices.
pub fn chars_starts_with(s: &[char], p: &[char]) -> (r: bool)
    ensures
        r == p@.is_prefix_of(s@),
{
    if p.len() > s.len() {
        return false;
    }
    let mut i: usize = 0;
    while i < p.len()
        invariant
            p.len() <= s.len(),
            i <= p.len(),
            forall|k: int| 0 <= k < i ==> p@[k] == s@[k],
        decreases p.len() - i,
    {
        if p[i] != s[i] {
            return false;
        }
        i += 1;
    }
    true
}

/// Every `from` replaced by `to` (std `str::replace` for one character).
pub open spec fn replace_char(s: Seq<char>, from: char, to: char) -> Seq<char> {
    s.map_values(|c: char| if c == from { to } else { c })
}

pub fn replace_chars(s: &[char], from: char, to: char) -> (r: Vec<char>)
    ensures
        r@ == replace_char(s@, from, to),
{
    let mut r: Vec<char> = Vec::new();
    let mut i: usize = 0;
    while i < s.len()
        invariant
            i <= s.len(),
            r@ == replace_char(s@.take(i as int), from, to),
        decreases s.len() - i,
    {
        let c = s[i];
        r.push(if c == from { to } else { c });
        i += 1;
        proof {
            assert(replace_char(s@.take(i as int), from, to) =~= replace_char(
                s@.take(i - 1),
                from,
                to,
            ).push(if c == from { to } else { c }));
        }
    }
    proof {
        assert(s@.take(s.len() as int) == s@);
    }
    r
}

/// Pieces between occurrences of `sep` (std `str::split` on one character):
/// always at least one piece.
pub open spec fn split_char(s: Seq<char>, sep: char) -> Seq<Seq<char>>
    decreases s.len(),
{
    if s.len() == 0 {
        seq![Seq::<char>::empty()]
    } else {
        let r = split_char(s.drop_last(), sep);
        if s.last() == sep {
            r.push(Seq::<char>::empty())
        } else {
            r.update(r.len() - 1, r.last().push(s.last()))
        }
    }
}

pub proof fn lemma_split_char_nonempty(s: Seq<char>, sep: char)
    ensures
        split_char(s, sep).len() >= 1,
    decreases s.len(),
{
    if s.len() > 0 {
        lemma_split_char_nonempty(s.drop_last(), sep);
    }
}

pub fn split_chars(s: &[char], sep: char) -> (r: Vec<Vec<char>>)
    ensures
        r@.map_values(|p: Vec<char>| p@) == split_char(s@, sep),
{
    let mut done: Vec<Vec<char>> = Vec::new();
    let mut cur: Vec<char> = Vec::new();
    let mut i: usize = 0;
    proof {
        assert(s@.take(0) =~= Seq::<char>::empty());
        assert(done@.map_values(|p: Vec<char>| p@).push(cur@) =~= split_char(s@.take(0), sep));
    }
    while i < s.len()
        invariant
            i <= s.len(),
            done@.map_values(|p: Vec<char>| p@).push(cur@) == split_char(s@.take(i as int), sep),
        decreases s.len() - i,
    {
        let c = s[i];
        let ghost before = s@.take(i as int);
        proof {
            lemma_split_char_nonempty(before, sep);
            assert(s@.take(i + 1).drop_last() == before);
            assert(s@.take(i + 1).last() == c);
        }
        if c == sep {
            let piece = cur;
            done.push(piece);
            cur = Vec::new();
            proof {
                assert(done@.map_values(|p: Vec<char>| p@).push(cur@) =~= split_char(before, sep).push(
                    Seq::<char>::empty(),
                ));
            }
        } else {
            cur.push(c);
            proof {
                let r = split_char(before, sep);
                assert(done@.map_values(|p: Vec<char>| p@).push(cur@) =~= r.update(
                    r.len() - 1,
                    r.last().push(c),
                ));
            }
        }
        i += 1;
    }
    done.push(cur);
    proof {
        assert(s@.take(s.len() as int) == s@);
        assert(done@.map_values(|p: Vec<char>| p@) =~= split_char(s@, sep));
    }
    done
}

/// Pieces joined by `sep` (std `[&str]::join`).
pub open spec fn join_with(parts: Seq<Seq<char>>, sep: char) -> Seq<char>
    decreases parts.len(),
{
    if parts.len() == 0 {
        seq![]
    } else if parts.len() == 1 {
        parts[0]
    } else {
        join_with(parts.drop_last(), sep).push(sep) + parts.last()
    }
}

/// Joins `parts[from..to]` with `sep`.
pub fn join_range(parts: &Vec<Vec<char>>, from: usize, to: usize, sep: char) -> (r: Vec<char>)
    requires
        from <= to <= parts.len(),
    ensures
        r@ == join_with(parts@.map_values(|p: Vec<char>| p@).subrange(from as int, to as int), sep),
{
    let ghost pv = parts@.map_values(|p: Vec<char>| p@);
    let mut r: Vec<char> = Vec::new();
    let mut k = from;
    proof {
        assert(pv.subrange(from as int, from as int) =~= Seq::<Seq<char>>::empty());
    }
    while k < to
        invariant
            from <= k <= to <= parts.len(),
            pv == parts@.map_values(|p: Vec<char>| p@),
            r@ == join_with(pv.subrange(from as int, k as int), sep),
        decreases to - k,
    {
        let ghost prev = pv.subrange(from as int, k as int);
        if k > from {
            r.push(sep);
        }
        push_all(&mut r, parts[k].as_slice());
        k += 1;
        proof {
            let next = pv.subrange(from as int, k as int);
            assert(next.drop_last() =~= prev);
            assert(next.last() == parts@[k - 1]@);
            if k - 1 == from {
                assert(next.len() == 1);
                assert(r@ =~= join_with(next, sep));
            }
        }
    }
    r
}

/// ASCII-only lowercase mapping of one character.
pub open spec fn ascii_lower(c: char) -> char {
    if 'A' <= c <= 'Z' {
        ((c as u32) + 32) as char
    } else {
        c
    }
}

pub fn ascii_lower_char(c: char) -> (r: char)
    ensures
        r == ascii_lower(c),
{
    if 'A' <= c && c <= 'Z' {
        let v: u8 = (c as u8) + 32;
        proof {
            assert(v as u32 == (c as u32) + 32);
        }
        v as char
    } else {
        c
    }
}

/// std `str::eq_ignore_ascii_case`.
pub open spec fn eq_ignore_ascii_case(a: Seq<char>, b: Seq<char>) -> bool {
    &&& a.len() == b.len()
    &&& forall|i: int| 0 <= i < a.len() ==> #[trigger] ascii_lower(a[i]) == ascii_lower(b[i])
}

pub fn chars_eq_ignore_ascii_case(a: &[char], b: &[char]) -> (r: bool)
    ensures
        r == eq_ignore_ascii_case(a@, b@),
{
    if a.len() != b.len() {
        return false;
    }
    let mut i: usize = 0;
    while i < a.len()
        invariant
            a.len() == b.len(),
            i <= a.len(),
            forall|k: int| 0 <= k < i ==> #[trigger] ascii_lower(a@[k]) == ascii_lower(b@[k]),
        decreases a.len() - i,
    {
        if ascii_lower_char(a[i]) != ascii_lower_char(b[i]) {
            return false;
        }
        i += 1;
    }
    true
}

/// Whether `p` occurs in `s` at position `i`.
pub open spec fn occurs_at(s: Seq<char>, p: Seq<char>, i: int) -> bool {
    0 <= i && i + p.len() <= s.len() && s.subrange(i, i + p.len()) == p
}

/// First position where `p` occurs in `s` (std `str::find`).
pub open spec fn find_first(s: Seq<char>, p: Seq<char>) -> Option<int> {
    if exists|i: int| occurs_at(s, p, i) {
        Some(choose|i: int| occurs_at(s, p, i) && forall|j: int| 0 <= j < i ==> !occurs_at(s, p, j))
    } else {
        None
    }
}

proof fn lemma_minimal_occurrence(s: Seq<char>, p: Seq<char>, k: int)
    requires
        occurs_at(s, p, k),
    ensures
        exists|m: int| occurs_at(s, p, m) && forall|j: int| 0 <= j < m ==> !occurs_at(s, p, j),
    decreases k,
{
    if exists|j: int| 0 <= j < k && occurs_at(s, p, j) {
        let j = choose|j: int| 0 <= j < k && occurs_at(s, p, j);
        lemma_minimal_occurrence(s, p, j);
    } else {
        assert(occurs_at(s, p, k) && forall|j: int| 0 <= j < k ==> !occurs_at(s, p, j));
    }
}

/// What `find_first` finds: the first occurrence, or none at all.
pub proof fn lemma_find_first_occurs(s: Seq<char>, p: Seq<char>)
    ensures
        match find_first(s, p) {
            Some(i) => occurs_at(s, p, i) && forall|j: int| 0 <= j < i ==> !occurs_at(s, p, j),
            None => forall|i: int| !occurs_at(s, p, i),
        },
{
    if exists|i: int| occurs_at(s, p, i) {
        let k = choose|i: int| occurs_at(s, p, i);
        lemma_minimal_occurrence(s, p, k);
    }
}

pub fn find_chars(s: &[char], p: &[char]) -> (r: Option<usize>)
    ensures
        match r {
            Some(i) => find_first(s@, p@) == Some(i as int) && occurs_at(s@, p@, i as int)
                && forall|j: int| 0 <= j < i ==> !occurs_at(s@, p@, j),
            None => find_first(s@, p@) is None,
        },
{
    if p.len() > s.len() {
        proof {
            assert forall|i: int| !occurs_at(s@, p@, i) by {}
        }
        return None;
    }
    let mut i: usize = 0;
    while i <= s.len() - p.len()
        invariant
            p.len() <= s.len(),
            i <= s.len() - p.len() + 1,
            forall|j: int| 0 <= j < i ==> !occurs_at(s@, p@, j),
        decreases s.len() - p.len() + 1 - i,
    {
        let mut k: usize = 0;
        let mut same = true;
        while k < p.len()
            invariant
                p.len() <= s.len(),
                i <= s.len() - p.len(),
                k <= p.len(),
                same == forall|m: int| 0 <= m < k ==> s@[i + m] == p@[m],
            decreases p.len() - k,
        {
            if s[i + k] != p[k] {
                same = false;
            }
            k += 1;
        }
        if same {
            proof {
                assert(s@.subrange(i as int, i + p.len()) =~= p@);
                assert(occurs_at(s@, p@, i as int));
                let c = choose|c: int| occurs_at(s@, p@, c) && forall|j: int| 0 <= j < c ==> !occurs_at(s@, p@, j);
                assert(occurs_at(s@, p@, c));
                if c < i {
                } else if c > i {
                } 
                assert(c == i);
            }
            return Some(i);
        }
        proof {
            assert(!occurs_at(s@, p@, i as int)) by {
                if occurs_at(s@, p@, i as int) {
                    let m = choose|m: int| 0 <= m < p.len() && s@[i + m] != p@[m];
                    assert(s@.subrange(i as int, i + p.len())[m] == s@[i + m]);
                }
            }
        }
        i += 1;
    }
    proof {
        assert forall|j: int| !occurs_at(s@, p@, j) by {
            if occurs_at(s@, p@, j) {
                assert(j < i);
            }
        }
    }
    None
}


/// The views of a run of character vectors.
pub open spec fn vec_views(v: Seq<Vec<char>>) -> Seq<Seq<char>> {
    v.map_values(|x: Vec<char>| x@)
}

/// The character view of an optional owned string.
pub open spec fn opt_view(o: Option<String>) -> Option<Seq<char>> {
    match o {
        Some(s) => Some(s@),
        None => None,
    }
}

/// The non-empty pieces, in order (std `filter(|p| !p.is_empty())`).
pub open spec fn nonempty_parts(parts: Seq<Seq<char>>) -> Seq<Seq<char>>
    decreases parts.len(),
{
    if parts.len() == 0 {
        seq![]
    } else if parts.last().len() > 0 {
        nonempty_parts(parts.drop_last()).push(parts.last())
    } else {
        nonempty_parts(parts.drop_last())
    }
}

pub fn keep_nonempty(parts: Vec<Vec<char>>) -> (r: Vec<Vec<char>>)
    ensures
        r@.map_values(|p: Vec<char>| p@) == nonempty_parts(parts@.map_values(|p: Vec<char>| p@)),
{
    let ghost pv = parts@.map_values(|p: Vec<char>| p@);
    let mut r: Vec<Vec<char>> = Vec::new();
    let mut i: usize = 0;
    while i < parts.len()
        invariant
            i <= parts.len(),
            pv == parts@.map_values(|p: Vec<char>| p@),
            r@.map_values(|p: Vec<char>| p@) == nonempty_parts(pv.take(i as int)),
        decreases parts.len() - i,
    {
        proof {
            assert(pv.take(i + 1).drop_last() == pv.take(i as int));
            assert(pv.take(i + 1).last() == parts@[i as int]@);
        }
        if parts[i].len() > 0 {
            r.push(parts[i].clone());
            proof {
                assert(r@.map_values(|p: Vec<char>| p@) =~= nonempty_parts(pv.take(i as int)).push(
                    parts@[i as int]@,
                ));
            }
        }
        i += 1;
    }
    proof {
        assert(pv.take(parts.len() as int) == pv);
    }
    r
}

} // verus!

//! Percent escaping of native file URLs.
//!
//! Escapes are defined on the UTF-8 bytes of a string: decoding reads `%HH`
//! pairs of hexadecimal digits, encoding keeps a small unreserved ASCII set
//! and writes every other byte as an upper-case `%HH` escape.
use vstd::prelude::*;
use vstd::utf8::*;
use crate::text::{string_from_utf8, string_from_utf8_lossy, utf8_lossy};

verus! {

/// Value of one ASCII hexadecimal digit.
pub open spec fn hex_digit_value(b: u8) -> Option<u8> {
    if 48 <= b <= 57 {
        Some((b - 48) as u8)
    } else if 97 <= b <= 102 {
        Some((b - 97 + 10) as u8)
    } else if 65 <= b <= 70 {
        Some((b - 65 + 10) as u8)
    } else {
        None
    }
}

pub fn hex_value(b: u8) -> (r: Option<u8>)
    ensures
        r == hex_digit_value(b),
        r matches Some(v) ==> v < 16,
{
    if 48 <= b && b <= 57 {
        Some(b - 48)
    } else if 97 <= b && b <= 102 {
        Some(b - 97 + 10)
    } else if 65 <= b && b <= 70 {
        Some(b - 65 + 10)
    } else {
        None
    }
}

/// Whether `b[i..i+3]` is a well-formed `%HH` escape.
pub open spec fn escape_at(b: Seq<u8>, i: int) -> bool {
    &&& 0 <= i
    &&& i + 2 < b.len()
    &&& b[i] == 37u8
    &&& hex_digit_value(b[i + 1]) is Some
    &&& hex_digit_value(b[i + 2]) is Some
}

/// The byte that a well-formed escape at `i` denotes.
pub open spec fn escaped_byte(b: Seq<u8>, i: int) -> u8 {
    (hex_digit_value(b[i + 1])->0 * 16 + hex_digit_value(b[i + 2])->0) as u8
}

/// Strict decoding: every `%` must start a well-formed escape.
pub open spec fn strict_decode_bytes(b: Seq<u8>) -> Option<Seq<u8>>
    decreases b.len(),
{
    if b.len() == 0 {
        Some(seq![])
    } else if b[0] == 37u8 {
        if escape_at(b, 0) {
            match strict_decode_bytes(b.skip(3)) {
                Some(rest) => Some(seq![escaped_byte(b, 0)] + rest),
                None => None,
            }
        } else {
            None
        }
    } else {
        match strict_decode_bytes(b.skip(1)) {
            Some(rest) => Some(seq![b[0]] + rest),
            None => None,
        }
    }
}

/// Lossy decoding: well-formed escapes are decoded, everything else is kept.
pub open spec fn lossy_decode_bytes(b: Seq<u8>) -> Seq<u8>
    decreases b.len(),
{
    if b.len() == 0 {
        seq![]
    } else if escape_at(b, 0) {
        seq![escaped_byte(b, 0)] + lossy_decode_bytes(b.skip(3))
    } else {
        seq![b[0]] + lossy_decode_bytes(b.skip(1))
    }
}

/// Strict decoding of a string: the escapes must be well formed and the
/// decoded bytes valid UTF-8.
pub open spec fn strict_decode(s: Seq<char>) -> Option<Seq<char>> {
    match strict_decode_bytes(encode_utf8(s)) {
        Some(bytes) => if valid_utf8(bytes) {
            Some(decode_utf8(bytes))
        } else {
            None
        },
        None => None,
    }
}

/// Lossy decoding of a string: the decoded bytes as UTF-8, with invalid
/// sequences replaced.
pub open spec fn lossy_decode(s: Seq<char>) -> Seq<char> {
    let bytes = lossy_decode_bytes(encode_utf8(s));
    if valid_utf8(bytes) {
        decode_utf8(bytes)
    } else {
        utf8_lossy(bytes)
    }
}

/// Decodes the escapes of `b[start..]`.
pub fn strict_decode_from(b: &[u8], start: usize) -> (r: Option<Vec<u8>>)
    requires
        start <= b.len(),
    ensures
        match r {
            Some(v) => strict_decode_bytes(b@.skip(start as int)) == Some(v@),
            None => strict_decode_bytes(b@.skip(start as int)) is None,
        },
{
    let mut out: Vec<u8> = Vec::new();
    let mut index = start;
    while index < b.len()
        invariant
            start <= index <= b.len(),
            strict_decode_bytes(b@.skip(start as int)) == match strict_decode_bytes(
                b@.skip(index as int),
            ) {
                Some(rest) => Some(out@ + rest),
                None => None::<Seq<u8>>,
            },
        decreases b.len() - index,
    {
        let ghost s = b@.skip(index as int);
        if b[index] == 37u8 {
            if b.len() - index <= 2 {
                proof {
                    assert(!escape_at(s, 0));
                }
                return None;
            }
            let hi = hex_value(b[index + 1]);
            let lo = hex_value(b[index + 2]);
            match (hi, lo) {
                (Some(h), Some(l)) => {
                    proof {
                        assert(escape_at(s, 0));
                        assert(s.skip(3) == b@.skip(index + 3));
                    }
                    let v: u8 = h * 16 + l;
                    proof {
                        assert(escaped_byte(s, 0) == v);
                    }
                    let ghost old_out = out@;
                    out.push(v);
                    index += 3;
                    proof {
                        assert forall|r: Seq<u8>| old_out + (seq![v] + r) == #[trigger] (out@ + r) by {
                            assert(old_out + (seq![v] + r) =~= out@ + r);
                        }
                    }
                },
                _ => {
                    proof {
                        assert(!escape_at(s, 0));
                    }
                    return None;
                },
            }
        } else {
            proof {
                assert(s.skip(1) == b@.skip(index + 1));
            }
            let ghost old_out = out@;
            let x = b[index];
            out.push(x);
            index += 1;
            proof {
                assert forall|r: Seq<u8>| old_out + (seq![x] + r) == #[trigger] (out@ + r) by {
                    assert(old_out + (seq![x] + r) =~= out@ + r);
                }
            }
        }
    }
    proof {
        assert(b@.skip(index as int).len() == 0);
        assert(out@ + seq![] == out@);
    }
    Some(out)
}

/// Lossy decoding of `b[start..]`.
pub fn lossy_decode_from(b: &[u8], start: usize) -> (v: Vec<u8>)
    requires
        start <= b.len(),
    ensures
        v@ == lossy_decode_bytes(b@.skip(start as int)),
{
    let mut out: Vec<u8> = Vec::new();
    let mut index = start;
    while index < b.len()
        invariant
            start <= index <= b.len(),
            lossy_decode_bytes(b@.skip(start as int)) == out@ + lossy_decode_bytes(
                b@.skip(index as int),
            ),
        decreases b.len() - index,
    {
        let ghost s = b@.skip(index as int);
        if b[index] == 37u8 && b.len() - index > 2 {
            let hi = hex_value(b[index + 1]);
            let lo = hex_value(b[index + 2]);
            if let (Some(h), Some(l)) = (hi, lo) {
                let v: u8 = h * 16 + l;
                proof {
                    assert(escape_at(s, 0));
                    assert(s.skip(3) == b@.skip(index + 3));
                    assert(escaped_byte(s, 0) == v);
                    assert(out@ + (seq![escaped_byte(s, 0)] + lossy_decode_bytes(s.skip(3)))
                        =~= out@.push(v) + lossy_decode_bytes(b@.skip(index + 3)));
                }
                out.push(v);
                index += 3;
                continue;
            }
            proof {
                assert(!escape_at(s, 0));
            }
        }
        proof {
            assert(!escape_at(s, 0));
            assert(s.skip(1) == b@.skip(index + 1));
            assert(out@ + (seq![s[0]] + lossy_decode_bytes(s.skip(1))) =~= out@.push(b@[index as int])
                + lossy_decode_bytes(b@.skip(index + 1)));
        }
        out.push(b[index]);
        index += 1;
    }
    proof {
        assert(out@ + seq![] == out@);
    }
    out
}

/// Decode percent escapes, rejecting malformed escapes and invalid UTF-8.
pub fn percent_decode_strict(value: &str) -> (r: Option<String>)
    ensures
        match r {
            Some(s) => strict_decode(value@) == Some(s@),
            None => strict_decode(value@) is None,
        },
{
    let bytes = value.as_bytes();
    proof {
        assert(bytes@.skip(0) == bytes@);
    }
    match strict_decode_from(bytes, 0) {
        Some(decoded) => string_from_utf8(decoded),
        None => None,
    }
}

/// Decode valid percent escapes while preserving malformed ones for
/// best-effort inspection of independently produced files.
pub fn percent_decode_lossy(value: &str) -> (r: String)
    ensures
        r@ == lossy_decode(value@),
{
    let bytes = value.as_bytes();
    proof {
        assert(bytes@.skip(0) == bytes@);
    }
    let decoded = lossy_decode_from(bytes, 0);
    string_from_utf8_lossy(decoded.as_slice())
}

// ---------------------------------------------------------------------------
// Encoding
// ---------------------------------------------------------------------------

/// Bytes that native file URLs keep unescaped.
pub open spec fn is_unreserved(b: u8) -> bool {
    ||| 65 <= b <= 90
    ||| 97 <= b <= 122
    ||| 48 <= b <= 57
    ||| b == 47u8
    ||| b == 45u8
    ||| b == 95u8
    ||| b == 46u8
    ||| b == 126u8
    ||| b == 44u8
    ||| b == 40u8
    ||| b == 41u8
    ||| b == 39u8
}

/// Upper-case hexadecimal digit for `d < 16`.
pub open spec fn hex_upper(d: u8) -> char {
    if d < 10 {
        ((48 + d) as u8) as char
    } else {
        ((55 + d) as u8) as char
    }
}

/// The escaped form of one byte.
pub open spec fn encode_byte(b: u8) -> Seq<char> {
    if is_unreserved(b) {
        seq![b as char]
    } else if b == 32u8 {
        seq!['%', '2', '0']
    } else {
        seq!['%', hex_upper(b / 16), hex_upper(b % 16)]
    }
}

/// Percent encoding of a byte sequence.
pub open spec fn encode_bytes(b: Seq<u8>) -> Seq<char>
    decreases b.len(),
{
    if b.len() == 0 {
        seq![]
    } else {
        encode_bytes(b.drop_last()) + encode_byte(b.last())
    }
}

/// Percent encoding of a path, as written into native `file://` URLs.
pub open spec fn percent_encoded(path: Seq<char>) -> Seq<char> {
    encode_bytes(encode_utf8(path))
}

fn hex_upper_exec(d: u8) -> (c: char)
    requires
        d < 16,
    ensures
        c == hex_upper(d),
{
    if d < 10 {
        (48u8 + d) as char
    } else {
        (55u8 + d) as char
    }
}

/// Appends the escaped form of one byte.
pub fn push_encoded_byte(out: &mut Vec<char>, b: u8)
    ensures
        final(out)@ == old(out)@ + encode_byte(b),
{
    if (65 <= b && b <= 90) || (97 <= b && b <= 122) || (48 <= b && b <= 57) || b == 47
        || b == 45 || b == 95 || b == 46 || b == 126 || b == 44 || b == 40 || b == 41 || b == 39 {
        out.push(b as char);
    } else if b == 32 {
        out.push('%');
        out.push('2');
        out.push('0');
    } else {
        out.push('%');
        out.push(hex_upper_exec(b / 16));
        out.push(hex_upper_exec(b % 16));
    }
    proof {
        assert(final(out)@ =~= old(out)@ + encode_byte(b));
    }
}

/// Percent-encode one path as written into native playlist URLs.
pub fn percent_encode_file_path(path: &str) -> (r: Vec<char>)
    ensures
        r@ == percent_encoded(path@),
{
    let bytes = path.as_bytes();
    let mut out: Vec<char> = Vec::new();
    let mut i: usize = 0;
    while i < bytes.len()
        invariant
            i <= bytes.len(),
            bytes@ == encode_utf8(path@),
            out@ == encode_bytes(bytes@.take(i as int)),
        decreases bytes.len() - i,
    {
        proof {
            assert(bytes@.take(i + 1).drop_last() == bytes@.take(i as int));
        }
        push_encoded_byte(&mut out, bytes[i]);
        i += 1;
    }
    proof {
        assert(bytes@.take(bytes.len() as int) == bytes@);
    }
    out
}

// ---------------------------------------------------------------------------
// Round trip
// ---------------------------------------------------------------------------

/// The bytes of an ASCII character sequence.
pub open spec fn ascii_bytes(s: Seq<char>) -> Seq<u8> {
    s.map_values(|c: char| (c as u32) as u8)
}

pub open spec fn all_ascii(s: Seq<char>) -> bool {
    forall|i: int| 0 <= i < s.len() ==> (#[trigger] s[i] as u32) < 128
}

/// UTF-8 encoding of ASCII text is the byte-per-character encoding.
pub proof fn lemma_encode_ascii(s: Seq<char>)
    requires
        all_ascii(s),
    ensures
        encode_utf8(s) == ascii_bytes(s),
    decreases s.len(),
{
    if s.len() > 0 {
        assert(all_ascii(s.drop_first()));
        lemma_encode_ascii(s.drop_first());
        let v = s[0] as u32;
        assert(v < 128);
        assert(ascii_bytes(s) =~= seq![v as u8] + ascii_bytes(s.drop_first()));
        assert(v <= 0x7f ==> (v & 0x7f) as u8 == v as u8) by (bit_vector);
        assert(encode_scalar(v) == seq![v as u8]);
    }
}

proof fn lemma_encode_byte_ascii(b: u8)
    ensures
        all_ascii(encode_byte(b)),
        encode_byte(b).len() == 1 || encode_byte(b).len() == 3,
{
}

pub proof fn lemma_encode_bytes_ascii(b: Seq<u8>)
    ensures
        all_ascii(encode_bytes(b)),
    decreases b.len(),
{
    if b.len() > 0 {
        lemma_encode_bytes_ascii(b.drop_last());
        lemma_encode_byte_ascii(b.last());
        let x = encode_bytes(b.drop_last());
        let y = encode_byte(b.last());
        assert forall|i: int| 0 <= i < (x + y).len() implies (#[trigger] (x + y)[i] as u32) < 128 by {
            if i < x.len() {
                assert((x + y)[i] == x[i]);
            } else {
                assert((x + y)[i] == y[i - x.len()]);
            }
        }
    }
}

proof fn lemma_decode_one_escape(b: u8)
    ensures
        strict_decode_bytes(ascii_bytes(encode_byte(b))) == Some(seq![b]),
        lossy_decode_bytes(ascii_bytes(encode_byte(b))) == seq![b],
{
    let e = ascii_bytes(encode_byte(b));
    if is_unreserved(b) {
        assert(((b as char) as u32) as u8 == b);
        assert(e =~= seq![b]);
        assert(e.skip(1) =~= Seq::<u8>::empty());
        assert(strict_decode_bytes(e.skip(1)) == Some(Seq::<u8>::empty()));
        assert(lossy_decode_bytes(e.skip(1)) == Seq::<u8>::empty());
        assert(!escape_at(e, 0));
        assert(seq![b] + Seq::<u8>::empty() =~= seq![b]);
    } else {
        assert(e.len() == 3);
        assert(e[0] == 37u8);
        assert(e.skip(3) =~= Seq::<u8>::empty());
        assert(strict_decode_bytes(e.skip(3)) == Some(Seq::<u8>::empty()));
        assert(lossy_decode_bytes(e.skip(3)) == Seq::<u8>::empty());
        if b == 32u8 {
            assert(escaped_byte(e, 0) == 32u8);
        } else {
            let hi = b / 16;
            let lo = b % 16;
            assert(hex_digit_value(e[1]) == Some(hi));
            assert(hex_digit_value(e[2]) == Some(lo));
            assert(escaped_byte(e, 0) == b);
        }
        assert(seq![b] + seq![] =~= seq![b]);
    }
}

/// Decoding after a prefix that decodes on its own in whole units.
proof fn lemma_strict_decode_append_unit(x: Seq<u8>, b: u8)
    ensures
        strict_decode_bytes(ascii_bytes(encode_bytes(x)) + ascii_bytes(encode_byte(b)))
            == match strict_decode_bytes(ascii_bytes(encode_bytes(x))) {
            Some(d) => Some(d.push(b)),
            None => None::<Seq<u8>>,
        },
        lossy_decode_bytes(ascii_bytes(encode_bytes(x)) + ascii_bytes(encode_byte(b)))
            == lossy_decode_bytes(ascii_bytes(encode_bytes(x))).push(b),
    decreases x.len(),
{
    lemma_strict_decode_concat(encode_bytes(x), encode_byte(b), x.len() as int);
    lemma_decode_one_escape(b);
}

/// Decoding distributes over a concatenation whose left part is a sequence of
/// complete escape units.
proof fn lemma_strict_decode_concat(l: Seq<char>, r: Seq<char>, fuel: int)
    requires
        exists|x: Seq<u8>| x.len() <= fuel && l == encode_bytes(x),
    ensures
        strict_decode_bytes(ascii_bytes(l) + ascii_bytes(r)) == match strict_decode_bytes(ascii_bytes(l)) {
            Some(d) => match strict_decode_bytes(ascii_bytes(r)) {
                Some(e) => Some(d + e),
                None => None::<Seq<u8>>,
            },
            None => None::<Seq<u8>>,
        },
        lossy_decode_bytes(ascii_bytes(l) + ascii_bytes(r)) == lossy_decode_bytes(ascii_bytes(l))
            + lossy_decode_bytes(ascii_bytes(r)),
    decreases fuel,
{
    let x = choose|x: Seq<u8>| x.len() <= fuel && l == encode_bytes(x);
    if x.len() == 0 {
        assert(l.len() == 0);
        assert(ascii_bytes(l) + ascii_bytes(r) =~= ascii_bytes(r));
        assert(seq![] + ascii_bytes(r) =~= ascii_bytes(r));
        assert(strict_decode_bytes(ascii_bytes(l)) == Some(Seq::<u8>::empty()));
        assert(lossy_decode_bytes(ascii_bytes(l)) =~= Seq::<u8>::empty());
        if let Some(e) = strict_decode_bytes(ascii_bytes(r)) {
            assert(Seq::<u8>::empty() + e =~= e);
        }
        assert(Seq::<u8>::empty() + lossy_decode_bytes(ascii_bytes(r)) =~= lossy_decode_bytes(ascii_bytes(r)));
    } else {
        // l = encode_bytes(x') + encode_byte(last); peel the first unit instead
        lemma_encode_bytes_front(x);
        let first = encode_byte(x[0]);
        let rest = encode_bytes(x.drop_first());
        assert(l == first + rest);
        assert(ascii_bytes(l) + ascii_bytes(r) =~= ascii_bytes(first) + (ascii_bytes(rest) + ascii_bytes(r)));
        assert(ascii_bytes(l) =~= ascii_bytes(first) + ascii_bytes(rest));
        lemma_strict_decode_concat(rest, r, fuel - 1);
        lemma_decode_unit_prefix(x[0], ascii_bytes(rest) + ascii_bytes(r));
        lemma_decode_unit_prefix(x[0], ascii_bytes(rest));
        let dr = strict_decode_bytes(ascii_bytes(rest));
        if let Some(d) = dr {
            if let Some(e) = strict_decode_bytes(ascii_bytes(r)) {
                assert(seq![x[0]] + (d + e) =~= (seq![x[0]] + d) + e);
            }
        }
        assert(seq![x[0]] + (lossy_decode_bytes(ascii_bytes(rest)) + lossy_decode_bytes(ascii_bytes(r)))
            =~= (seq![x[0]] + lossy_decode_bytes(ascii_bytes(rest))) + lossy_decode_bytes(ascii_bytes(r)));
    }
}

/// Decoding a sequence that starts with one complete unit.
proof fn lemma_decode_unit_prefix(b: u8, tail: Seq<u8>)
    ensures
        strict_decode_bytes(ascii_bytes(encode_byte(b)) + tail) == match strict_decode_bytes(tail) {
            Some(d) => Some(seq![b] + d),
            None => None::<Seq<u8>>,
        },
        lossy_decode_bytes(ascii_bytes(encode_byte(b)) + tail) == seq![b] + lossy_decode_bytes(tail),
{
    let e = ascii_bytes(encode_byte(b));
    let s = e + tail;
    if is_unreserved(b) {
        assert(s[0] == b);
        assert(s.skip(1) =~= tail);
        assert(!escape_at(s, 0));
    } else {
        assert(s[0] == 37u8);
        assert(s[1] == e[1] && s[2] == e[2]);
        assert(s.skip(3) =~= tail);
        if b == 32u8 {
            assert(escaped_byte(s, 0) == 32u8);
        } else {
            assert(hex_digit_value(e[1]) == Some(b / 16));
            assert(hex_digit_value(e[2]) == Some(b % 16));
            assert(escaped_byte(s, 0) == b);
        }
    }
}

/// `encode_bytes` peeled from the front.
pub proof fn lemma_encode_bytes_front(x: Seq<u8>)
    requires
        x.len() > 0,
    ensures
        encode_bytes(x) == encode_byte(x[0]) + encode_bytes(x.drop_first()),
    decreases x.len(),
{
    if x.len() == 1 {
        assert(x.drop_last() =~= Seq::<u8>::empty());
        assert(x.drop_first() =~= Seq::<u8>::empty());
        assert(encode_bytes(x.drop_last()) == Seq::<char>::empty());
        assert(encode_bytes(x.drop_first()) == Seq::<char>::empty());
        assert(x.last() == x[0]);
        assert(encode_bytes(x) =~= encode_byte(x[0]) + encode_bytes(x.drop_first()));
    } else {
        lemma_encode_bytes_front(x.drop_last());
        assert(x.drop_last().drop_first() == x.drop_first().drop_last());
        assert(x.drop_first().last() == x.last());
        assert(encode_bytes(x) =~= encode_byte(x[0]) + encode_bytes(x.drop_first()));
    }
}

/// Escaping followed by strict decoding restores every byte sequence.
pub proof fn lemma_encode_then_decode_bytes(b: Seq<u8>)
    ensures
        strict_decode_bytes(ascii_bytes(encode_bytes(b))) == Some(b),
        lossy_decode_bytes(ascii_bytes(encode_bytes(b))) == b,
    decreases b.len(),
{
    if b.len() == 0 {
        assert(ascii_bytes(encode_bytes(b)) =~= Seq::<u8>::empty());
    } else {
        lemma_encode_then_decode_bytes(b.drop_last());
        assert(ascii_bytes(encode_bytes(b)) =~= ascii_bytes(encode_bytes(b.drop_last()))
            + ascii_bytes(encode_byte(b.last())));
        lemma_strict_decode_append_unit(b.drop_last(), b.last());
        assert(b.drop_last().push(b.last()) =~= b);
    }
}

/// Law: percent-decoding an encoded path gives back the path, strictly and
/// lossily.
pub proof fn law_percent_round_trip(path: Seq<char>)
    ensures
        strict_decode(percent_encoded(path)) == Some(path),
        lossy_decode(percent_encoded(path)) == path,
{
    let b = encode_utf8(path);
    lemma_encode_bytes_ascii(b);
    lemma_encode_ascii(encode_bytes(b));
    lemma_encode_then_decode_bytes(b);
    encode_utf8_valid_utf8(path);
    encode_utf8_decode_utf8(path);
}

/// Where strict escapes decode, lossy decoding gives the same bytes.
proof fn lemma_strict_bytes_are_lossy(b: Seq<u8>)
    requires
        strict_decode_bytes(b) is Some,
    ensures
        lossy_decode_bytes(b) == strict_decode_bytes(b)->0,
    decreases b.len(),
{
    if b.len() > 0 {
        if b[0] == 37u8 {
            lemma_strict_bytes_are_lossy(b.skip(3));
        } else {
            assert(!escape_at(b, 0));
            lemma_strict_bytes_are_lossy(b.skip(1));
        }
    }
}

/// Law: wherever strict decoding succeeds, lossy decoding gives the same
/// text; lossy decoding differs only on malformed escapes or invalid UTF-8.
pub proof fn law_lossy_agrees_with_strict(s: Seq<char>)
    requires
        strict_decode(s) is Some,
    ensures
        lossy_decode(s) == strict_decode(s)->0,
{
    lemma_strict_bytes_are_lossy(encode_utf8(s));
}

/// Strict decoding passes an ASCII prefix without `%` through unchanged.
pub proof fn lemma_strict_decode_plain_prefix(q: Seq<char>, t: Seq<u8>)
    requires
        all_ascii(q),
        forall|i: int| 0 <= i < q.len() ==> #[trigger] q[i] != '%',
    ensures
        strict_decode_bytes(ascii_bytes(q) + t) == match strict_decode_bytes(t) {
            Some(d) => Some(ascii_bytes(q) + d),
            None => None::<Seq<u8>>,
        },
    decreases q.len(),
{
    if q.len() > 0 {
        let b = ascii_bytes(q) + t;
        let v = q[0] as u32;
        assert(v < 128);
        assert(v < 128 ==> (v as u8) as u32 == v) by (bit_vector);
        vstd::utf8::char_u32_cast(q[0], v);
        assert(b[0] == v as u8);
        if b[0] == 37u8 {
            vstd::utf8::char_u32_cast('%', 37);
            assert(q[0] == '%');
        }
        assert(all_ascii(q.drop_first()));
        assert forall|i: int| 0 <= i < q.drop_first().len() implies #[trigger] q.drop_first()[i] != '%' by {
            assert(q.drop_first()[i] == q[i + 1]);
        }
        lemma_strict_decode_plain_prefix(q.drop_first(), t);
        assert(b.skip(1) =~= ascii_bytes(q.drop_first()) + t);
        if let Some(d) = strict_decode_bytes(t) {
            assert(ascii_bytes(q) + d =~= seq![b[0]] + (ascii_bytes(q.drop_first()) + d));
        }
    }
}

/// UTF-8 that begins with ASCII text decodes to that text followed by the
/// rest.
pub proof fn lemma_decode_ascii_prefix(q: Seq<char>, t: Seq<u8>)
    requires
        all_ascii(q),
        valid_utf8(ascii_bytes(q) + t),
    ensures
        valid_utf8(t),
        decode_utf8(ascii_bytes(q) + t) == q + decode_utf8(t),
    decreases q.len(),
{
    if q.len() == 0 {
        assert(ascii_bytes(q) + t =~= t);
        assert(q + decode_utf8(t) =~= decode_utf8(t));
    } else {
        let b = ascii_bytes(q) + t;
        let v = q[0] as u32;
        assert(v < 128);
        let b0 = b[0];
        assert(b0 == v as u8);
        assert(v < 128 ==> (v as u8) <= 0x7f && (((v as u8) & 0x7f) as u32) == v) by (bit_vector);
        vstd::utf8::char_u32_cast(q[0], v);
        assert(vstd::utf8::decode_first_scalar(b) == v);
        assert(vstd::utf8::pop_first_scalar(b) =~= ascii_bytes(q.drop_first()) + t);
        assert(all_ascii(q.drop_first()));
        lemma_decode_ascii_prefix(q.drop_first(), t);
        assert(q + decode_utf8(t) =~= seq![q[0]] + (q.drop_first() + decode_utf8(t)));
    }
}

} // verus!

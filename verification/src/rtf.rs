//! RTF generation and extraction for slide text.
//!
//! All generated text flows through `StyledSegment`: a block of text with
//! optional colour, bold and italic overrides on top of a template baseline.
use vstd::prelude::*;
use crate::text::{
    chars_of, decimal, push_all, push_decimal, push_signed_decimal, push_str, signed_decimal,
    split_char, split_chars, lemma_split_char_nonempty, string_into_bytes, string_of,
    string_from_utf8_lossy, utf8_lossy, opt_view, occurs_at, find_chars, trim_end,
    trim_end_index,
};
use vstd::utf8::encode_utf8;

pub mod extract;
pub use extract::rtf_to_text;

verus! {

/// An RGB colour.
pub type Rgb = (u8, u8, u8);

/// RTF generation options: the template's baseline style.
pub struct RtfOptions {
    /// Cocoa RTF producer version copied from the template.
    pub cocoa_rtf_version: u32,
    /// Font name.
    pub font_name: String,
    /// Font size in points.
    pub font_size: u32,
    /// Text colour.
    pub color: Rgb,
    /// Kerning value.
    pub kerning: i32,
    /// Whether the baseline is bold.
    pub bold: bool,
    /// Whether the baseline is italic.
    pub italic: bool,
    /// Native paragraph controls copied from the template's first paragraph.
    pub paragraph_controls: String,
}

/// Paragraph controls of the default template.
pub open spec fn default_paragraph_controls() -> Seq<char> {
    "\\pard\\pardeftab1680\\sl20\\slleading480\\pardirnatural\\partightenfactor0"@
}

/// The default template style: Helvetica 80pt white, kerning 5.
pub open spec fn is_default_options(o: RtfOptions) -> bool {
    &&& o.cocoa_rtf_version == 2821
    &&& o.font_name@ == "Helvetica"@
    &&& o.font_size == 80
    &&& o.color == (255u8, 255u8, 255u8)
    &&& o.kerning == 5
    &&& !o.bold
    &&& !o.italic
    &&& o.paragraph_controls@ == default_paragraph_controls()
}

impl Default for RtfOptions {
    fn default() -> (o: RtfOptions)
        ensures
            is_default_options(o),
    {
        RtfOptions {
            cocoa_rtf_version: 2821,
            font_name: "Helvetica".to_string(),
            font_size: 80,
            color: (255, 255, 255),
            kerning: 5,
            bold: false,
            italic: false,
            paragraph_controls: "\\pard\\pardeftab1680\\sl20\\slleading480\\pardirnatural\\partightenfactor0".to_string(),
        }
    }
}

/// A section of text with optional style overrides; `None` keeps the
/// template default.
pub struct StyledSegment {
    /// The text content.
    pub text: String,
    /// Colour override.
    pub color: Option<Rgb>,
    /// Bold override.
    pub bold: Option<bool>,
    /// Italic override.
    pub italic: Option<bool>,
}

/// The abstract value of a segment: text, colour, bold and italic overrides.
pub type SegmentView = (Seq<char>, Option<Rgb>, Option<bool>, Option<bool>);

impl View for StyledSegment {
    type V = SegmentView;

    open spec fn view(&self) -> SegmentView {
        (self.text@, self.color, self.bold, self.italic)
    }
}

/// The views of a list of segments.
pub open spec fn segment_views(segs: Seq<StyledSegment>) -> Seq<SegmentView> {
    segs.map_values(|s: StyledSegment| s@)
}

impl Default for StyledSegment {
    fn default() -> (s: StyledSegment)
        ensures
            s.text@ == Seq::<char>::empty(),
            s.color is None,
            s.bold is None,
            s.italic is None,
    {
        StyledSegment { text: String::new(), color: None, bold: None, italic: None }
    }
}

impl Clone for StyledSegment {
    fn clone(&self) -> (s: StyledSegment)
        ensures
            s.text@ == self.text@,
            s.color == self.color,
            s.bold == self.bold,
            s.italic == self.italic,
    {
        StyledSegment {
            text: self.text.clone(),
            color: self.color,
            bold: self.bold,
            italic: self.italic,
        }
    }
}

impl StyledSegment {
    /// A segment with no style overrides.
    pub fn unstyled(text: &str) -> (s: StyledSegment)
        ensures
            s.text@ == text@,
            s.color is None,
            s.bold is None,
            s.italic is None,
    {
        StyledSegment { text: text.to_string(), color: None, bold: None, italic: None }
    }

    /// One unstyled segment per plain line.
    pub fn from_plain(lines: &[String]) -> (r: Vec<StyledSegment>)
        ensures
            r.len() == lines.len(),
            forall|i: int|
                0 <= i < lines.len() ==> {
                    &&& #[trigger] r[i].text@ == lines[i]@
                    &&& r[i].color is None
                    &&& r[i].bold is None
                    &&& r[i].italic is None
                },
    {
        let mut r: Vec<StyledSegment> = Vec::new();
        let mut i: usize = 0;
        while i < lines.len()
            invariant
                i <= lines.len(),
                r.len() == i,
                forall|k: int|
                    0 <= k < i ==> {
                        &&& #[trigger] r[k].text@ == lines[k]@
                        &&& r[k].color is None
                        &&& r[k].bold is None
                        &&& r[k].italic is None
                    },
            decreases lines.len() - i,
        {
            r.push(StyledSegment::unstyled(lines[i].as_str()));
            i += 1;
        }
        r
    }
}

// ---------------------------------------------------------------------------
// The RTF text encoding of characters
// ---------------------------------------------------------------------------

/// Superscript digit characters `⁰`..`⁹`.
pub open spec fn is_superscript(c: char) -> bool {
    c == '\u{2070}' || c == '\u{b9}' || c == '\u{b2}' || c == '\u{b3}' || ('\u{2074}' <= c
        && c <= '\u{2079}')
}

/// The plain digit of a superscript digit.
pub open spec fn superscript_digit(c: char) -> char {
    if c == '\u{2070}' {
        '0'
    } else if c == '\u{b9}' {
        '1'
    } else if c == '\u{b2}' {
        '2'
    } else if c == '\u{b3}' {
        '3'
    } else if '\u{2074}' <= c && c <= '\u{2079}' {
        (((c as u32) - 0x2074 + 52) as u8) as char
    } else {
        c
    }
}

fn superscript_to_digit(c: char) -> (d: char)
    ensures
        d == superscript_digit(c),
{
    if c == '\u{2070}' {
        '0'
    } else if c == '\u{b9}' {
        '1'
    } else if c == '\u{b2}' {
        '2'
    } else if c == '\u{b3}' {
        '3'
    } else if '\u{2074}' <= c && c <= '\u{2079}' {
        let v: u32 = (c as u32) - 0x2074 + 52;
        (v as u8) as char
    } else {
        c
    }
}

fn superscript_test(c: char) -> (r: bool)
    ensures
        r == is_superscript(c),
{
    c == '\u{2070}' || c == '\u{b9}' || c == '\u{b2}' || c == '\u{b3}' || ('\u{2074}' <= c && c
        <= '\u{2079}')
}

/// RTF escape of one character outside a superscript run.
pub open spec fn rtf_char(c: char) -> Seq<char> {
    if c == '\n' {
        "\\par "@
    } else if c == '\\' {
        seq!['\\', '\\']
    } else if c == '{' {
        seq!['\\', '{']
    } else if c == '}' {
        seq!['\\', '}']
    } else if c == '\u{2019}' {
        "\\'92"@
    } else if c == '\u{2018}' {
        "\\'91"@
    } else if c == '\u{201C}' {
        "\\'93"@
    } else if c == '\u{201D}' {
        "\\'94"@
    } else if c == '\u{2013}' {
        "\\'96"@
    } else if c == '\u{2014}' {
        "\\'97"@
    } else if c == '\u{2026}' {
        "\\'85"@
    } else if (c as u32) > 127 {
        seq!['\\', 'u'] + decimal(c as u32 as nat) + seq!['?']
    } else {
        seq![c]
    }
}

fn write_rtf_char(out: &mut Vec<char>, c: char)
    ensures
        final(out)@ == old(out)@ + rtf_char(c),
{
    if c == '\n' {
        push_str(out, "\\par ");
    } else if c == '\\' {
        out.push('\\');
        out.push('\\');
    } else if c == '{' {
        out.push('\\');
        out.push('{');
    } else if c == '}' {
        out.push('\\');
        out.push('}');
    } else if c == '\u{2019}' {
        push_str(out, "\\'92");
    } else if c == '\u{2018}' {
        push_str(out, "\\'91");
    } else if c == '\u{201C}' {
        push_str(out, "\\'93");
    } else if c == '\u{201D}' {
        push_str(out, "\\'94");
    } else if c == '\u{2013}' {
        push_str(out, "\\'96");
    } else if c == '\u{2014}' {
        push_str(out, "\\'97");
    } else if c == '\u{2026}' {
        push_str(out, "\\'85");
    } else if (c as u32) > 127 {
        out.push('\\');
        out.push('u');
        push_decimal(out, (c as u32) as u64);
        out.push('?');
    } else {
        out.push(c);
    }
    proof {
        assert(final(out)@ =~= old(out)@ + rtf_char(c));
    }
}

/// RTF encoding of `s` when a superscript group is open (`in_super`) or not:
/// superscript digits are grouped in `{\super ..}`, everything else escaped.
pub open spec fn rtf_text_run(s: Seq<char>, in_super: bool) -> Seq<char>
    decreases s.len(),
{
    if s.len() == 0 {
        if in_super {
            seq!['}']
        } else {
            Seq::empty()
        }
    } else {
        let c = s[0];
        if is_superscript(c) {
            (if in_super {
                Seq::empty()
            } else {
                "{\\super "@
            }) + seq![superscript_digit(c)] + rtf_text_run(s.drop_first(), true)
        } else {
            (if in_super {
                seq!['}']
            } else {
                Seq::empty()
            }) + rtf_char(c) + rtf_text_run(s.drop_first(), false)
        }
    }
}

/// RTF encoding of a block of text.
pub open spec fn rtf_text(s: Seq<char>) -> Seq<char> {
    rtf_text_run(s, false)
}

/// Appends the RTF encoding of `text`.
pub fn write_rtf_text(out: &mut Vec<char>, text: &str)
    ensures
        final(out)@ == old(out)@ + rtf_text(text@),
{
    let chars = chars_of(text);
    let mut in_super = false;
    let mut i: usize = 0;
    proof {
        assert(chars@.skip(0) =~= chars@);
    }
    while i < chars.len()
        invariant
            i <= chars.len(),
            chars@ == text@,
            out@ + rtf_text_run(chars@.skip(i as int), in_super) == old(out)@ + rtf_text(text@),
        decreases chars.len() - i,
    {
        let c = chars[i];
        let ghost rest = chars@.skip(i as int);
        let ghost before = out@;
        let ghost was = in_super;
        proof {
            assert(rest[0] == c);
            assert(rest.drop_first() =~= chars@.skip(i + 1));
        }
        if superscript_test(c) {
            if !in_super {
                push_str(out, "{\\super ");
                in_super = true;
            }
            out.push(superscript_to_digit(c));
        } else {
            if in_super {
                out.push('}');
                in_super = false;
            }
            write_rtf_char(out, c);
        }
        i += 1;
        proof {
            let tail = rtf_text_run(chars@.skip(i as int), in_super);
            if is_superscript(c) {
                let open: Seq<char> = if was {
                    Seq::empty()
                } else {
                    "{\\super "@
                };
                assert(out@ == before + open + seq![superscript_digit(c)]);
                assert(rtf_text_run(rest, was) == open + seq![superscript_digit(c)] + tail);
            } else {
                let close: Seq<char> = if was {
                    seq!['}']
                } else {
                    Seq::empty()
                };
                assert(out@ == before + close + rtf_char(c));
                assert(rtf_text_run(rest, was) == close + rtf_char(c) + tail);
            }
            assert(out@ + tail =~= before + rtf_text_run(rest, was));
        }
    }
    if in_super {
        out.push('}');
    }
    proof {
        assert(chars@.skip(chars.len() as int) =~= Seq::<char>::empty());
        assert(final(out)@ =~= old(out)@ + rtf_text(text@));
    }
}

// ---------------------------------------------------------------------------
// RTF document generation
// ---------------------------------------------------------------------------

/// Override colours in first-occurrence order, without repeats and without
/// the base colour: the extra entries of the colour table.
pub open spec fn extra_colors(colors: Seq<Option<Rgb>>, base: Rgb) -> Seq<Rgb>
    decreases colors.len(),
{
    if colors.len() == 0 {
        Seq::empty()
    } else {
        let e = extra_colors(colors.drop_last(), base);
        match colors.last() {
            Some(c) => if c != base && !e.contains(c) {
                e.push(c)
            } else {
                e
            },
            None => e,
        }
    }
}

/// The colour overrides of a segment list.
pub open spec fn segment_colors(segments: Seq<SegmentView>) -> Seq<Option<Rgb>> {
    segments.map_values(|s: SegmentView| s.1)
}

/// First index of `x` in `s` (or `s.len()` when absent).
pub open spec fn first_index(s: Seq<Rgb>, x: Rgb) -> nat
    decreases s.len(),
{
    if s.len() == 0 {
        0
    } else if s[0] == x {
        0
    } else {
        1 + first_index(s.drop_first(), x)
    }
}

/// Colour-table index selected by a segment: 2 for the base colour, `3 + k`
/// for the k-th extra colour.
pub open spec fn color_index(color: Option<Rgb>, base: Rgb, extra: Seq<Rgb>) -> nat {
    match color {
        None => 2,
        Some(c) => if c == base || !extra.contains(c) {
            2
        } else {
            first_index(extra, c) + 3
        },
    }
}

/// One `\redR\greenG\blueB;` colour-table entry.
pub open spec fn color_entry(c: Rgb) -> Seq<char> {
    "\\red"@ + decimal(c.0 as nat) + "\\green"@ + decimal(c.1 as nat) + "\\blue"@ + decimal(
        c.2 as nat,
    ) + seq![';']
}

/// Colour-table entries for a colour list.
pub open spec fn color_entries(cs: Seq<Rgb>) -> Seq<char>
    decreases cs.len(),
{
    if cs.len() == 0 {
        Seq::empty()
    } else {
        color_entries(cs.drop_last()) + color_entry(cs.last())
    }
}

/// `n` semicolons.
pub open spec fn semicolons(n: nat) -> Seq<char> {
    Seq::new(n, |i: int| ';')
}

/// The RTF header: producer, font table, colour tables and paragraph
/// controls.
pub open spec fn rtf_header(o: RtfOptions, extra: Seq<Rgb>) -> Seq<char> {
    "{\\rtf1\\ansi\\ansicpg1252\\cocoartf"@ + decimal(o.cocoa_rtf_version as nat) + seq!['\n']
        + "\\cocoatextscaling0\\cocoaplatform0"@ + "{\\fonttbl\\f0\\fswiss\\fcharset0 "@
        + o.font_name@ + ";}"@ + seq!['\n'] + "{\\colortbl;"@ + color_entry(o.color)
        + color_entry(o.color) + color_entries(extra) + seq!['}', '\n']
        + "{\\*\\expandedcolortbl;;"@ + "\\cssrgb\\c100000\\c100000\\c100000;"@ + semicolons(
        extra.len(),
    ) + seq!['}', '\n'] + "\\deftab1680"@ + seq!['\n'] + o.paragraph_controls@ + seq!['\n', '\n']
}

/// Paragraph break before every segment but the first.
pub open spec fn segment_break(i: int) -> Seq<char> {
    if i > 0 {
        "\\par "@
    } else {
        Seq::empty()
    }
}

/// Font size and colour-table selection of a segment.
pub open spec fn segment_font_color(o: RtfOptions, cf: nat) -> Seq<char> {
    "\\f0\\fs"@ + decimal((o.font_size * 2) as nat) + " \\cf"@ + decimal(cf)
}

/// Kerning controls of the style.
pub open spec fn segment_kerning(o: RtfOptions) -> Seq<char> {
    " \\kerning1\\expnd"@ + signed_decimal(o.kerning as int) + "\\expndtw"@ + signed_decimal(
        o.kerning * 5,
    )
}

/// Bold and italic switches, then the line break ending the control run.
pub open spec fn segment_flags(bold: bool, italic: bool) -> Seq<char> {
    (if bold {
        "\\b"@
    } else {
        "\\b0"@
    }) + (if italic {
        "\\i"@
    } else {
        "\\i0"@
    }) + seq!['\n']
}

/// An override, or the baseline when there is none.
pub open spec fn or_default(v: Option<bool>, d: bool) -> bool {
    match v {
        Some(b) => b,
        None => d,
    }
}

/// The RTF of the `i`-th segment.
pub open spec fn segment_rtf(seg: SegmentView, i: int, o: RtfOptions, extra: Seq<Rgb>) -> Seq<
    char,
> {
    segment_break(i) + segment_font_color(o, color_index(seg.1, o.color, extra)) + segment_kerning(
        o,
    ) + segment_flags(or_default(seg.2, o.bold), or_default(seg.3, o.italic)) + rtf_text(seg.0)
}

/// The RTF of all segments, in order.
pub open spec fn segments_body(segs: Seq<SegmentView>, o: RtfOptions, extra: Seq<Rgb>) -> Seq<
    char,
>
    decreases segs.len(),
{
    if segs.len() == 0 {
        Seq::empty()
    } else {
        segments_body(segs.drop_last(), o, extra) + segment_rtf(
            segs.last(),
            segs.len() - 1,
            o,
            extra,
        )
    }
}

/// The complete RTF document for `segments` in the style `o`.
pub open spec fn rtf_document(segments: Seq<SegmentView>, o: RtfOptions) -> Seq<char> {
    let extra = extra_colors(segment_colors(segments), o.color);
    rtf_header(o, extra) + segments_body(segments, o, extra) + seq!['}']
}

/// Whether the style's derived sizes fit their integer types.
pub open spec fn options_in_range(o: RtfOptions) -> bool {
    &&& o.font_size * 2 <= u32::MAX
    &&& i32::MIN <= o.kerning * 5 <= i32::MAX
}

fn push_color_entry(out: &mut Vec<char>, c: Rgb)
    ensures
        final(out)@ == old(out)@ + color_entry(c),
{
    push_str(out, "\\red");
    push_decimal(out, c.0 as u64);
    push_str(out, "\\green");
    push_decimal(out, c.1 as u64);
    push_str(out, "\\blue");
    push_decimal(out, c.2 as u64);
    out.push(';');
    proof {
        assert(final(out)@ =~= old(out)@ + color_entry(c));
    }
}

fn rgb_eq(a: Rgb, b: Rgb) -> (r: bool)
    ensures
        r == (a == b),
{
    a.0 == b.0 && a.1 == b.1 && a.2 == b.2
}

/// Index of the first occurrence of `c` in `v`, or `v.len()`.
fn find_color(v: &Vec<Rgb>, c: Rgb) -> (k: usize)
    ensures
        k == first_index(v@, c),
        k < v.len() <==> v@.contains(c),
        k <= v.len(),
{
    let mut k: usize = 0;
    proof {
        assert(v@.skip(0) =~= v@);
    }
    while k < v.len()
        invariant
            k <= v.len(),
            forall|j: int| 0 <= j < k ==> v@[j] != c,
            first_index(v@, c) == k + first_index(v@.skip(k as int), c),
        decreases v.len() - k,
    {
        if rgb_eq(v[k], c) {
            proof {
                assert(v@.skip(k as int)[0] == c);
            }
            return k;
        }
        proof {
            assert(v@.skip(k as int).drop_first() =~= v@.skip(k + 1));
        }
        k += 1;
    }
    proof {
        assert(v@.skip(k as int).len() == 0);
        if v@.contains(c) {
            let j = choose|j: int| 0 <= j < v.len() && v@[j] == c;
            assert(v@[j] != c);
        }
    }
    k
}

/// Builds the override-colour list of the colour table.
fn collect_extra_colors(segments: &[StyledSegment], base: Rgb) -> (e: Vec<Rgb>)
    ensures
        e@ == extra_colors(segment_colors(segment_views(segments@)), base),
{
    let mut e: Vec<Rgb> = Vec::new();
    let mut i: usize = 0;
    while i < segments.len()
        invariant
            i <= segments.len(),
            e@ == extra_colors(segment_colors(segment_views(segments@)).take(i as int), base),
        decreases segments.len() - i,
    {
        let ghost cs = segment_colors(segment_views(segments@));
        proof {
            assert(cs.take(i + 1).drop_last() =~= cs.take(i as int));
            assert(cs.take(i + 1).last() == segments@[i as int].color);
        }
        match segments[i].color {
            Some(c) => {
                if !rgb_eq(c, base) {
                    let k = find_color(&e, c);
                    if k == e.len() {
                        e.push(c);
                    }
                }
            },
            None => {},
        }
        i += 1;
    }
    proof {
        assert(segment_colors(segment_views(segments@)).take(segments.len() as int)
            =~= segment_colors(segment_views(segments@)));
    }
    e
}

proof fn lemma_extra_colors_len(colors: Seq<Option<Rgb>>, base: Rgb)
    ensures
        extra_colors(colors, base).len() <= colors.len(),
    decreases colors.len(),
{
    if colors.len() > 0 {
        lemma_extra_colors_len(colors.drop_last(), base);
    }
}

proof fn lemma_color_entries_push(cs: Seq<Rgb>, c: Rgb)
    ensures
        color_entries(cs.push(c)) == color_entries(cs) + color_entry(c),
{
    assert(cs.push(c).drop_last() =~= cs);
}

fn segment_color_index(color: Option<Rgb>, base: Rgb, extra: &Vec<Rgb>) -> (cf: u64)
    requires
        extra.len() < u64::MAX - 3,
    ensures
        cf == color_index(color, base, extra@),
{
    match color {
        None => 2,
        Some(c) => {
            if rgb_eq(c, base) {
                2
            } else {
                let k = find_color(extra, c);
                if k < extra.len() {
                    k as u64 + 3
                } else {
                    2
                }
            }
        },
    }
}

fn push_font_color(out: &mut Vec<char>, options: &RtfOptions, cf: u64)
    requires
        options_in_range(*options),
    ensures
        final(out)@ == old(out)@ + segment_font_color(*options, cf as nat),
{
    push_str(out, "\\f0\\fs");
    push_decimal(out, (options.font_size * 2) as u64);
    push_str(out, " \\cf");
    push_decimal(out, cf);
    proof {
        assert(final(out)@ =~= old(out)@ + segment_font_color(*options, cf as nat));
    }
}

fn push_kerning(out: &mut Vec<char>, options: &RtfOptions)
    requires
        options_in_range(*options),
    ensures
        final(out)@ == old(out)@ + segment_kerning(*options),
{
    push_str(out, " \\kerning1\\expnd");
    push_signed_decimal(out, options.kerning as i64);
    push_str(out, "\\expndtw");
    push_signed_decimal(out, (options.kerning * 5) as i64);
    proof {
        assert(final(out)@ =~= old(out)@ + segment_kerning(*options));
    }
}

fn push_flags(out: &mut Vec<char>, bold: bool, italic: bool)
    ensures
        final(out)@ == old(out)@ + segment_flags(bold, italic),
{
    if bold {
        push_str(out, "\\b");
    } else {
        push_str(out, "\\b0");
    }
    if italic {
        push_str(out, "\\i");
    } else {
        push_str(out, "\\i0");
    }
    out.push('\n');
    proof {
        assert(final(out)@ =~= old(out)@ + segment_flags(bold, italic));
    }
}

fn push_segment(
    out: &mut Vec<char>,
    seg: &StyledSegment,
    i: usize,
    options: &RtfOptions,
    extra: &Vec<Rgb>,
)
    requires
        options_in_range(*options),
        extra.len() < u64::MAX - 3,
    ensures
        final(out)@ == old(out)@ + segment_rtf(seg@, i as int, *options, extra@),
{
    let ghost o0 = out@;
    if i > 0 {
        push_str(out, "\\par ");
    }
    let ghost o1 = out@;
    assert(o1 == o0 + segment_break(i as int));
    let cf = segment_color_index(seg.color, options.color, extra);
    push_font_color(out, options, cf);
    let ghost o2 = out@;
    push_kerning(out, options);
    let ghost o3 = out@;
    let is_bold = match seg.bold {
        Some(b) => b,
        None => options.bold,
    };
    let is_italic = match seg.italic {
        Some(b) => b,
        None => options.italic,
    };
    push_flags(out, is_bold, is_italic);
    let ghost o4 = out@;
    write_rtf_text(out, seg.text.as_str());
    proof {
        let p1 = segment_break(i as int);
        let p2 = segment_font_color(*options, cf as nat);
        let p3 = segment_kerning(*options);
        let p4 = segment_flags(is_bold, is_italic);
        let p5 = rtf_text(seg.text@);
        assert(o2 == o0 + p1 + p2);
        assert(o3 =~= o0 + (p1 + p2 + p3));
        assert(o4 =~= o0 + (p1 + p2 + p3 + p4));
        assert(final(out)@ =~= o0 + (p1 + p2 + p3 + p4 + p5));
    }
}

/// Generates the RTF document for styled segments: a colour table of the
/// base colour and every distinct override, then one paragraph per segment
/// switching `\cfN`, bold and italic as the segment asks.
pub fn segments_to_rtf(segments: &[StyledSegment], options: &RtfOptions) -> (rtf: String)
    requires
        options_in_range(*options),
        segments.len() <= isize::MAX,
    ensures
        rtf@ == rtf_document(segment_views(segments@), *options),
{
    let extra = collect_extra_colors(segments, options.color);
    proof {
        lemma_extra_colors_len(segment_colors(segment_views(segments@)), options.color);
    }
    let mut out: Vec<char> = Vec::new();
    push_str(&mut out, "{\\rtf1\\ansi\\ansicpg1252\\cocoartf");
    push_decimal(&mut out, options.cocoa_rtf_version as u64);
    out.push('\n');
    push_str(&mut out, "\\cocoatextscaling0\\cocoaplatform0");
    push_str(&mut out, "{\\fonttbl\\f0\\fswiss\\fcharset0 ");
    push_str(&mut out, options.font_name.as_str());
    push_str(&mut out, ";}");
    out.push('\n');
    push_str(&mut out, "{\\colortbl;");
    push_color_entry(&mut out, options.color);
    push_color_entry(&mut out, options.color);
    let mut k: usize = 0;
    let ghost mark = out@;
    proof {
        assert(extra@.take(0) =~= Seq::<Rgb>::empty());
        assert(out@ =~= mark + color_entries(extra@.take(0)));
    }
    while k < extra.len()
        invariant
            k <= extra.len(),
            out@ == mark + color_entries(extra@.take(k as int)),
        decreases extra.len() - k,
    {
        push_color_entry(&mut out, extra[k]);
        proof {
            assert(extra@.take(k + 1) =~= extra@.take(k as int).push(extra@[k as int]));
            lemma_color_entries_push(extra@.take(k as int), extra@[k as int]);
        }
        k += 1;
    }
    proof {
        assert(extra@.take(extra.len() as int) =~= extra@);
    }
    out.push('}');
    out.push('\n');
    push_str(&mut out, "{\\*\\expandedcolortbl;;");
    push_str(&mut out, "\\cssrgb\\c100000\\c100000\\c100000;");
    let ghost mark2 = out@;
    k = 0;
    while k < extra.len()
        invariant
            k <= extra.len(),
            out@ == mark2 + semicolons(k as nat),
        decreases extra.len() - k,
    {
        out.push(';');
        k += 1;
        proof {
            assert(out@ =~= mark2 + semicolons(k as nat));
        }
    }
    out.push('}');
    out.push('\n');
    push_str(&mut out, "\\deftab1680");
    out.push('\n');
    push_str(&mut out, options.paragraph_controls.as_str());
    out.push('\n');
    out.push('\n');
    proof {
        assert(out@ =~= rtf_header(*options, extra@));
    }
    let ghost head = out@;
    let ghost views = segment_views(segments@);
    let mut i: usize = 0;
    proof {
        assert(views.take(0) =~= Seq::<SegmentView>::empty());
        assert(out@ =~= head + segments_body(views.take(0), *options, extra@));
    }
    while i < segments.len()
        invariant
            i <= segments.len(),
            options_in_range(*options),
            extra.len() <= isize::MAX,
            views == segment_views(segments@),
            out@ == head + segments_body(views.take(i as int), *options, extra@),
        decreases segments.len() - i,
    {
        push_segment(&mut out, &segments[i], i, options, &extra);
        proof {
            let t = views.take(i + 1);
            assert(t.drop_last() =~= views.take(i as int));
            assert(t.last() == segments@[i as int]@);
            assert(out@ =~= head + segments_body(t, *options, extra@));
        }
        i += 1;
    }
    out.push('}');
    proof {
        assert(views.take(segments.len() as int) =~= views);
        assert(out@ =~= rtf_document(views, *options));
    }
    string_of(out.as_slice())
}

/// The UTF-8 bytes of `segments_to_rtf`.
pub fn segments_to_rtf_bytes(segments: &[StyledSegment], options: &RtfOptions) -> (bytes: Vec<u8>)
    requires
        options_in_range(*options),
        segments.len() <= isize::MAX,
    ensures
        bytes@ == encode_utf8(rtf_document(segment_views(segments@), *options)),
{
    string_into_bytes(segments_to_rtf(segments, options))
}

/// Unstyled segments, one per `\n`-separated line of `text`.
pub open spec fn plain_segments(text: Seq<char>) -> Seq<SegmentView> {
    split_char(text, '\n').map_values(|l: Seq<char>| (l, None::<Rgb>, None::<bool>, None::<bool>))
}

proof fn lemma_split_char_len(s: Seq<char>, sep: char)
    ensures
        split_char(s, sep).len() <= s.len() + 1,
    decreases s.len(),
{
    if s.len() > 0 {
        lemma_split_char_len(s.drop_last(), sep);
        lemma_split_char_nonempty(s.drop_last(), sep);
    }
}

fn plain_segments_of(text: &str) -> (segs: Vec<StyledSegment>)
    ensures
        segment_views(segs@) == plain_segments(text@),
        segs.len() <= text@.len() + 1,
{
    proof {
        lemma_split_char_len(text@, '\n');
    }
    let chars = chars_of(text);
    let parts = split_chars(chars.as_slice(), '\n');
    let ghost lines = split_char(text@, '\n');
    let mut segs: Vec<StyledSegment> = Vec::new();
    let mut i: usize = 0;
    while i < parts.len()
        invariant
            i <= parts.len(),
            parts@.map_values(|p: Vec<char>| p@) == lines,
            lines == split_char(text@, '\n'),
            segs.len() == i,
            forall|k: int|
                0 <= k < i ==> {
                    &&& #[trigger] segs@[k].text@ == lines[k]
                    &&& segs@[k].color is None
                    &&& segs@[k].bold is None
                    &&& segs@[k].italic is None
                },
        decreases parts.len() - i,
    {
        let line = string_of(parts[i].as_slice());
        proof {
            assert(lines[i as int] == parts@[i as int]@);
        }
        segs.push(StyledSegment { text: line, color: None, bold: None, italic: None });
        i += 1;
    }
    proof {
        assert(segment_views(segs@) =~= plain_segments(text@));
    }
    segs
}

/// The RTF of plain text in the style `o`: one unstyled segment per line.
pub open spec fn text_rtf(text: Seq<char>, o: RtfOptions) -> Seq<char> {
    rtf_document(plain_segments(text), o)
}

/// RTF for plain text with the given style, one paragraph per line.
pub fn text_to_rtf_styled(text: &str, options: &RtfOptions) -> (rtf: String)
    requires
        options_in_range(*options),
        text@.len() < isize::MAX,
    ensures
        rtf@ == text_rtf(text@, *options),
{
    let segs = plain_segments_of(text);
    segments_to_rtf(segs.as_slice(), options)
}

/// RTF for plain text in the default style.
pub fn text_to_rtf(text: &str) -> (rtf: String)
    requires
        text@.len() < isize::MAX,
    ensures
        exists|o: RtfOptions| is_default_options(o) && rtf@ == text_rtf(text@, o),
{
    let o = RtfOptions::default();
    text_to_rtf_styled(text, &o)
}

/// UTF-8 bytes of `text_to_rtf`.
pub fn text_to_rtf_bytes(text: &str) -> (bytes: Vec<u8>)
    requires
        text@.len() < isize::MAX,
    ensures
        exists|o: RtfOptions| is_default_options(o) && bytes@ == encode_utf8(text_rtf(text@, o)),
{
    let o = RtfOptions::default();
    string_into_bytes(text_to_rtf_styled(text, &o))
}

/// UTF-8 bytes of `text_to_rtf_styled`.
pub fn text_to_rtf_bytes_styled(text: &str, options: &RtfOptions) -> (bytes: Vec<u8>)
    requires
        options_in_range(*options),
        text@.len() < isize::MAX,
    ensures
        bytes@ == encode_utf8(text_rtf(text@, *options)),
{
    string_into_bytes(text_to_rtf_styled(text, options))
}

// ---------------------------------------------------------------------------
// Reading a template's style
// ---------------------------------------------------------------------------

/// What the `regex` crate finds for a pattern in a text: the capture groups
/// of the leftmost-first match, or `None` when the pattern does not match
/// (or does not compile).
pub uninterp spec fn regex_captures(pattern: Seq<char>, haystack: Seq<char>) -> Option<Seq<Option<Seq<char>>>>;

/// The views of optional capture strings.
pub open spec fn capture_views(v: Seq<Option<String>>) -> Seq<Option<Seq<char>>> {
    v.map_values(|m: Option<String>| opt_view(m))
}

/// Capture groups of the first match of `pattern` in `haystack` (regex
/// `Regex::new`, then `Regex::captures`, each group as an owned string).
/// The result is named, not described.
#[verifier::external_body]
fn first_captures(pattern: &str, haystack: &str) -> (r: Option<Vec<Option<String>>>)
    ensures
        match r {
            Some(v) => regex_captures(pattern@, haystack@) == Some(capture_views(v@)),
            None => regex_captures(pattern@, haystack@) is None,
        },
{
    regex::Regex::new(pattern).ok().and_then(|re| re.captures(haystack)).map(
        |caps| caps.iter().map(|m| m.map(|m| m.as_str().to_string())).collect(),
    )
}

/// Capture group `k` of a match, if the match and the group exist.
pub open spec fn group(m: Option<Seq<Option<Seq<char>>>>, k: int) -> Option<Seq<char>> {
    match m {
        Some(g) => if 0 <= k < g.len() {
            g[k]
        } else {
            None
        },
        None => None,
    }
}

/// ASCII digits only, at least one.
pub open spec fn all_digits(s: Seq<char>) -> bool {
    s.len() > 0 && forall|i: int| 0 <= i < s.len() ==> '0' <= #[trigger] s[i] && s[i] <= '9'
}

/// The decimal value of digit characters.
pub open spec fn digits_number(s: Seq<char>) -> nat
    decreases s.len(),
{
    if s.len() == 0 {
        0
    } else {
        digits_number(s.drop_last()) * 10 + (s.last() as u32 - 48) as nat
    }
}

/// The magnitude std's integer parsing reads: digits after an optional `+`.
pub open spec fn unsigned_magnitude(s: Seq<char>) -> Option<nat> {
    let d = if s.len() > 0 && s[0] == '+' {
        s.drop_first()
    } else {
        s
    };
    if all_digits(d) {
        Some(digits_number(d))
    } else {
        None
    }
}

/// std `str::parse::<u32>`.
pub open spec fn parse_u32(s: Seq<char>) -> Option<u32> {
    match unsigned_magnitude(s) {
        Some(v) => if v <= u32::MAX {
            Some(v as u32)
        } else {
            None
        },
        None => None,
    }
}

/// std `str::parse::<u8>`.
pub open spec fn parse_u8(s: Seq<char>) -> Option<u8> {
    match parse_u32(s) {
        Some(v) => if v <= 255 {
            Some(v as u8)
        } else {
            None
        },
        None => None,
    }
}

/// std `str::parse::<i32>`: an optional sign, then digits.
pub open spec fn parse_i32(s: Seq<char>) -> Option<i32> {
    if s.len() > 0 && s[0] == '-' {
        let d = s.drop_first();
        if all_digits(d) && digits_number(d) <= 0x8000_0000 {
            Some((-(digits_number(d) as int)) as i32)
        } else {
            None
        }
    } else {
        match unsigned_magnitude(s) {
            Some(v) => if v <= i32::MAX {
                Some(v as i32)
            } else {
                None
            },
            None => None,
        }
    }
}

/// The magnitude of `s` as parsing reads it, when it fits in `u64` range
/// checks, with its sign.
fn read_magnitude(s: &[char], from: usize) -> (r: Option<u64>)
    requires
        from <= s.len(),
    ensures
        match r {
            Some(v) => all_digits(s@.skip(from as int)) && v == digits_number(s@.skip(from as int))
                && v <= 0x1_0000_0000,
            None => !all_digits(s@.skip(from as int)) || digits_number(s@.skip(from as int))
                > 0x1_0000_0000,
        },
{
    let ghost d = s@.skip(from as int);
    if from == s.len() {
        return None;
    }
    let mut v: u64 = 0;
    let mut i: usize = from;
    while i < s.len()
        invariant
            from <= i <= s.len(),
            d == s@.skip(from as int),
            forall|k: int| 0 <= k < i - from ==> '0' <= #[trigger] d[k] && d[k] <= '9',
            v == digits_number(d.take(i - from)),
            v <= 0x1_0000_0000,
        decreases s.len() - i,
    {
        let c = s[i];
        proof {
            assert(d[i - from] == c);
            assert(d.take(i - from + 1).drop_last() =~= d.take(i - from));
        }
        if !('0' <= c && c <= '9') {
            return None;
        }
        let next: u64 = v * 10 + ((c as u32) - 48) as u64;
        if next > 0x1_0000_0000 {
            proof {
                if all_digits(d) {
                    lemma_digits_number_grows(d, i - from + 1);
                }
            }
            return None;
        }
        v = next;
        i += 1;
    }
    proof {
        assert(d.take(i - from) =~= d);
    }
    Some(v)
}

proof fn lemma_digits_number_grows(d: Seq<char>, n: int)
    requires
        0 <= n <= d.len(),
        forall|i: int| 0 <= i < d.len() ==> '0' <= #[trigger] d[i] && d[i] <= '9',
    ensures
        digits_number(d) >= digits_number(d.take(n)),
    decreases d.len(),
{
    if n < d.len() {
        lemma_digits_number_grows(d.drop_last(), n);
        assert(d.drop_last().take(n) =~= d.take(n));
    } else {
        assert(d.take(n) =~= d);
    }
}

fn parse_u32_chars(s: &[char]) -> (r: Option<u32>)
    ensures
        r == parse_u32(s@),
{
    let from: usize = if s.len() > 0 && s[0] == '+' {
        1
    } else {
        0
    };
    proof {
        if from == 1 {
            assert(s@.skip(1) =~= s@.drop_first());
        } else {
            assert(s@.skip(0) =~= s@);
        }
    }
    match read_magnitude(s, from) {
        Some(v) => if v <= 0xffff_ffff {
            Some(v as u32)
        } else {
            None
        },
        None => None,
    }
}

fn parse_u8_chars(s: &[char]) -> (r: Option<u8>)
    ensures
        r == parse_u8(s@),
{
    match parse_u32_chars(s) {
        Some(v) => if v <= 255 {
            Some(v as u8)
        } else {
            None
        },
        None => None,
    }
}

fn parse_i32_chars(s: &[char]) -> (r: Option<i32>)
    ensures
        r == parse_i32(s@),
{
    if s.len() > 0 && s[0] == '-' {
        proof {
            assert(s@.skip(1) =~= s@.drop_first());
        }
        match read_magnitude(s, 1) {
            Some(v) => if v <= 0x8000_0000 {
                let w: i64 = 0i64 - (v as i64);
                Some(w as i32)
            } else {
                None
            },
            None => None,
        }
    } else {
        let from: usize = if s.len() > 0 && s[0] == '+' {
            1
        } else {
            0
        };
        proof {
            if from == 1 {
                assert(s@.skip(1) =~= s@.drop_first());
            } else {
                assert(s@.skip(0) =~= s@);
            }
        }
        match read_magnitude(s, from) {
            Some(v) => if v <= 0x7fff_ffff {
                Some(v as i32)
            } else {
                None
            },
            None => None,
        }
    }
}

/// Whether `s` contains `p`.
pub open spec fn contains_text(s: Seq<char>, p: Seq<char>) -> bool {
    exists|i: int| occurs_at(s, p, i)
}

fn contains_chars(s: &[char], p: &str) -> (r: bool)
    ensures
        r == contains_text(s@, p@),
{
    let pc = chars_of(p);
    match find_chars(s, pc.as_slice()) {
        Some(_) => true,
        None => false,
    }
}

/// The style a template's RTF states, given what the regular expressions
/// found in its text: the Cocoa version, first paragraph controls (without
/// trailing white space), font name, font size, first colour and kerning
/// where present and readable, the defaults otherwise; bold and italic when
/// the text holds `\b`/`\i` followed by a space or a backslash.
pub open spec fn options_from(
    text: Seq<char>,
    version: Option<Seq<Option<Seq<char>>>>,
    paragraph: Option<Seq<Option<Seq<char>>>>,
    font: Option<Seq<Option<Seq<char>>>>,
    size: Option<Seq<Option<Seq<char>>>>,
    color: Option<Seq<Option<Seq<char>>>>,
    kern: Option<Seq<Option<Seq<char>>>>,
    o: RtfOptions,
) -> bool {
    &&& o.cocoa_rtf_version == match group(version, 1) {
        Some(g) => match parse_u32(g) {
            Some(v) => v,
            None => 2821,
        },
        None => 2821,
    }
    &&& o.paragraph_controls@ == match group(paragraph, 1) {
        Some(g) => if trim_end(g).len() > 0 {
            trim_end(g)
        } else {
            default_paragraph_controls()
        },
        None => default_paragraph_controls(),
    }
    &&& o.font_name@ == match font {
        Some(_) => match group(font, 1) {
            Some(g) => g,
            None => Seq::empty(),
        },
        None => "Helvetica"@,
    }
    &&& o.font_size == match group(size, 1) {
        Some(g) => match parse_u32(g) {
            Some(v) => v / 2,
            None => 80,
        },
        None => 80,
    }
    &&& o.color == match color {
        Some(_) => (
            match group(color, 1) {
                Some(g) => match parse_u8(g) {
                    Some(v) => v,
                    None => 255u8,
                },
                None => 255u8,
            },
            match group(color, 2) {
                Some(g) => match parse_u8(g) {
                    Some(v) => v,
                    None => 255u8,
                },
                None => 255u8,
            },
            match group(color, 3) {
                Some(g) => match parse_u8(g) {
                    Some(v) => v,
                    None => 255u8,
                },
                None => 255u8,
            },
        ),
        None => (255u8, 255u8, 255u8),
    }
    &&& o.kerning == match kern {
        Some(_) => match group(kern, 1) {
            Some(g) => match parse_i32(g) {
                Some(v) => v,
                None => 5,
            },
            None => 5,
        },
        None => 5,
    }
    &&& o.bold == (contains_text(text, "\\b "@) || contains_text(text, "\\b\\"@))
    &&& o.italic == (contains_text(text, "\\i "@) || contains_text(text, "\\i\\"@))
}

fn group_of(m: &Option<Vec<Option<String>>>, k: usize) -> (r: Option<Vec<char>>)
    ensures
        match r {
            Some(g) => group(
                match m {
                    Some(v) => Some(capture_views(v@)),
                    None => None,
                },
                k as int,
            ) == Some(g@),
            None => group(
                match m {
                    Some(v) => Some(capture_views(v@)),
                    None => None,
                },
                k as int,
            ) is None,
        },
{
    match m {
        Some(v) => if k < v.len() {
            match &v[k] {
                Some(s) => Some(chars_of(s.as_str())),
                None => None,
            }
        } else {
            None
        },
        None => None,
    }
}

/// The optional capture view of an exec match.
pub open spec fn match_view(m: Option<Vec<Option<String>>>) -> Option<Seq<Option<Seq<char>>>> {
    match m {
        Some(v) => Some(capture_views(v@)),
        None => None,
    }
}

/// The template style, given the matches of the six patterns in the text.
pub fn rtf_options_from_matches(
    text: &str,
    version: Option<Vec<Option<String>>>,
    paragraph: Option<Vec<Option<String>>>,
    font: Option<Vec<Option<String>>>,
    size: Option<Vec<Option<String>>>,
    color: Option<Vec<Option<String>>>,
    kern: Option<Vec<Option<String>>>,
) -> (o: RtfOptions)
    ensures
        options_from(
            text@,
            match_view(version),
            match_view(paragraph),
            match_view(font),
            match_view(size),
            match_view(color),
            match_view(kern),
            o,
        ),
{
    let mut o = RtfOptions::default();
    match group_of(&version, 1) {
        Some(g) => match parse_u32_chars(g.as_slice()) {
            Some(v) => {
                o.cocoa_rtf_version = v;
            },
            None => {},
        },
        None => {},
    }
    match group_of(&paragraph, 1) {
        Some(g) => {
            let end = trim_end_index(g.as_slice());
            if end > 0 {
                let mut t: Vec<char> = Vec::new();
                let mut k: usize = 0;
                while k < end
                    invariant
                        k <= end <= g.len(),
                        t@ == g@.take(k as int),
                    decreases end - k,
                {
                    t.push(g[k]);
                    k += 1;
                }
                o.paragraph_controls = string_of(t.as_slice());
            }
        },
        None => {},
    }
    if font.is_some() {
        o.font_name = match group_of(&font, 1) {
            Some(g) => string_of(g.as_slice()),
            None => String::new(),
        };
    }
    match group_of(&size, 1) {
        Some(g) => match parse_u32_chars(g.as_slice()) {
            Some(v) => {
                o.font_size = v / 2;
            },
            None => {},
        },
        None => {},
    }
    if color.is_some() {
        let r = match group_of(&color, 1) {
            Some(g) => match parse_u8_chars(g.as_slice()) {
                Some(v) => v,
                None => 255,
            },
            None => 255,
        };
        let g2 = match group_of(&color, 2) {
            Some(g) => match parse_u8_chars(g.as_slice()) {
                Some(v) => v,
                None => 255,
            },
            None => 255,
        };
        let b = match group_of(&color, 3) {
            Some(g) => match parse_u8_chars(g.as_slice()) {
                Some(v) => v,
                None => 255,
            },
            None => 255,
        };
        o.color = (r, g2, b);
    }
    if kern.is_some() {
        o.kerning = match group_of(&kern, 1) {
            Some(g) => match parse_i32_chars(g.as_slice()) {
                Some(v) => v,
                None => 5,
            },
            None => 5,
        };
    }
    let tc = chars_of(text);
    o.bold = contains_chars(tc.as_slice(), "\\b ") || contains_chars(tc.as_slice(), "\\b\\");
    o.italic = contains_chars(tc.as_slice(), "\\i ") || contains_chars(tc.as_slice(), "\\i\\");
    o
}

/// Reads a template's baseline style from its RTF bytes (decoded
/// leniently): the producer version, first paragraph controls, font, size,
/// colour, kerning, bold and italic, each defaulting when absent.
pub fn extract_rtf_options(rtf_data: &[u8]) -> (r: Option<RtfOptions>)
    ensures
        r matches Some(o) && exists|
            v: Option<Seq<Option<Seq<char>>>>,
            p: Option<Seq<Option<Seq<char>>>>,
            f: Option<Seq<Option<Seq<char>>>>,
            s: Option<Seq<Option<Seq<char>>>>,
            c: Option<Seq<Option<Seq<char>>>>,
            k: Option<Seq<Option<Seq<char>>>>,
        |
            #![trigger options_from(utf8_lossy(rtf_data@), v, p, f, s, c, k, o)]
            v == regex_captures("\\\\cocoartf(\\d+)"@, utf8_lossy(rtf_data@))
            && p == regex_captures("(?m)(\\\\pard[^\\r\\n{}]*)"@, utf8_lossy(rtf_data@))
            && f == regex_captures("\\\\f0\\\\fswiss\\\\fcharset0 ([^;]+);"@, utf8_lossy(rtf_data@))
            && s == regex_captures("\\\\fs(\\d+)"@, utf8_lossy(rtf_data@))
            && c == regex_captures("\\\\red(\\d+)\\\\green(\\d+)\\\\blue(\\d+)"@, utf8_lossy(rtf_data@))
            && k == regex_captures("\\\\expnd(-?\\d+)"@, utf8_lossy(rtf_data@))
            && options_from(utf8_lossy(rtf_data@), v, p, f, s, c, k, o),
{
    let rtf = string_from_utf8_lossy(rtf_data);
    let text = rtf.as_str();
    let version = first_captures("\\\\cocoartf(\\d+)", text);
    let paragraph = first_captures("(?m)(\\\\pard[^\\r\\n{}]*)", text);
    let font = first_captures("\\\\f0\\\\fswiss\\\\fcharset0 ([^;]+);", text);
    let size = first_captures("\\\\fs(\\d+)", text);
    let color = first_captures("\\\\red(\\d+)\\\\green(\\d+)\\\\blue(\\d+)", text);
    let kern = first_captures("\\\\expnd(-?\\d+)", text);
    let ghost views = (match_view(version), match_view(paragraph), match_view(font), match_view(size), match_view(color), match_view(kern));
    let o = rtf_options_from_matches(text, version, paragraph, font, size, color, kern);
    proof {
        assert(text@ == utf8_lossy(rtf_data@));
        assert(views.0 == regex_captures("\\\\cocoartf(\\d+)"@, utf8_lossy(rtf_data@)));
        assert(views.1 == regex_captures("(?m)(\\\\pard[^\\r\\n{}]*)"@, utf8_lossy(rtf_data@)));
        assert(views.2 == regex_captures("\\\\f0\\\\fswiss\\\\fcharset0 ([^;]+);"@, utf8_lossy(rtf_data@)));
        assert(views.3 == regex_captures("\\\\fs(\\d+)"@, utf8_lossy(rtf_data@)));
        assert(views.4 == regex_captures("\\\\red(\\d+)\\\\green(\\d+)\\\\blue(\\d+)"@, utf8_lossy(rtf_data@)));
        assert(views.5 == regex_captures("\\\\expnd(-?\\d+)"@, utf8_lossy(rtf_data@)));
        let rr = Some(o);
        assert(options_from(utf8_lossy(rtf_data@), views.0, views.1, views.2, views.3, views.4, views.5, rr->Some_0));
    }
    Some(o)
}

} // verus!

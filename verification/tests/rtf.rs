use proflow::rtf::{
    extract_rtf_options, rtf_options_from_matches, rtf_to_text, segments_to_rtf,
    text_to_rtf_styled, RtfOptions, StyledSegment,
};

#[test]
fn test_simple_rtf() {
    let rtf = r"{\rtf1\ansi{\fonttbl\f0\fswiss Helvetica;}\f0\pard Test text\par}";
    let result = rtf_to_text(rtf);
    assert!(result.is_some());
    assert!(result.unwrap().contains("Test text"));
}

#[test]
fn test_not_rtf() {
    assert_eq!(rtf_to_text("plain text"), None);
}

#[test]
fn test_multiline_rtf() {
    let rtf = r"{\rtf1\ansi Line 1\par Line 2\par}";
    let result = rtf_to_text(rtf).unwrap();
    assert!(result.contains("Line 1"));
    assert!(result.contains("Line 2"));
}

#[test]
fn test_legacy_backslash_newline_breaks() {
    let rtf = "{\\rtf1\\ansi Line 1\\\nLine 2\\\nLine 3}";
    let result = rtf_to_text(rtf).unwrap();
    assert_eq!(result, "Line 1\nLine 2\nLine 3");
}

#[test]
fn raw_rtf_formatting_newlines_are_not_visible_text() {
    let rtf = "{\\rtf1\\ansi\nLine 1\n\\par Line 2\n}";

    assert_eq!(rtf_to_text(rtf).as_deref(), Some("Line 1\nLine 2"));
}

#[test]
fn test_rtf_to_text_skips_cocoa_header_groups() {
    let rtf = r"{\rtf1\ansi{\fonttbl\f0\fswiss\fcharset0 Helvetica;}{\colortbl;\red255\green255\blue255;}\pard\pardeftab1680\f0\fs96 \cf1 Actual text\par Next line}";
    let result = rtf_to_text(rtf).unwrap();
    assert_eq!(result, "Actual text\nNext line");
}

#[test]
fn test_rtf_to_text_preserves_internal_blank_lines() {
    let rtf = r"{\rtf1\ansi First\par \par Second\par}";
    let result = rtf_to_text(rtf).unwrap();
    assert_eq!(result, "First\n\nSecond");
}

#[test]
fn test_rtf_to_text_blank_slide_is_none() {
    let rtf = r"{\rtf1\ansi{\fonttbl\f0\fswiss Helvetica;}\pard\par}";
    assert_eq!(rtf_to_text(rtf), None);
}

#[test]
fn generated_unicode_round_trips_without_the_ansi_fallback() {
    let rtf = text_to_rtf_styled("O\u{00a0}Lord", &RtfOptions::default());

    assert_eq!(rtf_to_text(&rtf).as_deref(), Some("O Lord"));
}

#[test]
fn unicode_fallback_length_is_scoped_to_its_rtf_group() {
    let rtf = r"{\rtf1\ansi\uc0 {\uc1\u8217 ?}\u8239 X}";

    assert_eq!(rtf_to_text(rtf).as_deref(), Some("’\u{202f}X"));
}

#[test]
fn regenerated_rtf_preserves_template_paragraph_controls_and_version() {
    let template = br"{\rtf1\ansi\ansicpg1252\cocoartf2709
{\fonttbl\f0\fswiss\fcharset0 Helvetica;}
{\colortbl;\red255\green255\blue255;}
\pard\qc\sl240\slmult1\pardirnatural
\f0\fs96 Old text}";
    let options = extract_rtf_options(template).expect("extract native RTF options");

    let regenerated = segments_to_rtf(&[StyledSegment::unstyled("New text")], &options);

    assert!(regenerated.contains("\\cocoartf2709"));
    assert!(regenerated.contains("\\pard\\qc\\sl240\\slmult1\\pardirnatural"));
    assert!(regenerated.contains("New text"));
}

#[test]
fn extracted_template_style_reads_every_control() {
    let template = br"{\rtf1\ansi\cocoartf2513 {\fonttbl\f0\fswiss\fcharset0 Avenir Next;}
{\colortbl;\red51\green102\blue153;}
\pard\qc
\f0\fs128 \cf1 \expnd-3\expndtw-15\b\i Old}";
    let options = extract_rtf_options(template).expect("options");
    assert_eq!(options.cocoa_rtf_version, 2513);
    assert_eq!(options.font_name, "Avenir Next");
    assert_eq!(options.font_size, 64);
    assert_eq!(options.color, (51, 102, 153));
    assert_eq!(options.kerning, -3);
    assert!(options.bold);
    assert!(options.italic);
    assert_eq!(options.paragraph_controls, "\\pard\\qc");

    let bare = extract_rtf_options(b"no controls").expect("defaults");
    assert_eq!(bare.cocoa_rtf_version, 2821);
    assert_eq!(bare.font_name, "Helvetica");
    assert_eq!(bare.font_size, 80);
    assert_eq!(bare.color, (255, 255, 255));
    assert_eq!(bare.kerning, 5);
    assert!(!bare.bold && !bare.italic);
}

#[test]
fn unreadable_captures_keep_the_defaults() {
    let captures = |groups: &[Option<&str>]| {
        Some(groups.iter().map(|g| g.map(|s| s.to_string())).collect::<Vec<_>>())
    };
    let options = rtf_options_from_matches(
        "\\b0 plain",
        captures(&[Some("\\cocoartf99999999999"), Some("99999999999")]),
        captures(&[Some("\\pard  "), Some("   ")]),
        captures(&[Some("x"), None]),
        captures(&[Some("\\fs+41"), Some("+41")]),
        captures(&[Some("c"), Some("300"), Some("7"), None]),
        captures(&[Some("k"), Some("-2147483648")]),
    );
    assert_eq!(options.cocoa_rtf_version, 2821);
    assert_eq!(
        options.paragraph_controls,
        "\\pard\\pardeftab1680\\sl20\\slleading480\\pardirnatural\\partightenfactor0"
    );
    assert_eq!(options.font_name, "");
    assert_eq!(options.font_size, 20);
    assert_eq!(options.color, (255, 7, 255));
    assert_eq!(options.kerning, i32::MIN);
    assert!(!options.bold);
}

#[test]
fn escapes_destinations_and_code_page_characters_are_decoded() {
    assert_eq!(
        rtf_to_text(r"{\rtf1 a\'92b\~c\{d\}\\e\tab f\emdash\endash\bullet}").as_deref(),
        Some("a\u{2019}b c{d}\\e\tf\u{2014}\u{2013}\u{2022}")
    );
    assert_eq!(
        rtf_to_text(r"{\rtf1 {\*\generator Cocoa}{\info x}visible\line next}").as_deref(),
        Some("visible\nnext")
    );
    assert_eq!(rtf_to_text("{\\rtf1 one\\\r\ntwo  \u{a0}}").as_deref(), Some("one\ntwo"));
    assert_eq!(rtf_to_text(r"{\rtf1 \u-3913 ?x}").as_deref(), Some("\u{f0b7}x"));
    assert_eq!(rtf_to_text(r"{\rtf1 \uc2\u233 \'e9\'e9z}").as_deref(), Some("\u{e9}z"));
}

use proflow::rtf::{segments_to_rtf, text_to_rtf, text_to_rtf_styled, RtfOptions, StyledSegment};

#[test]
fn test_styled_segments_unstyled() {
    let segments = StyledSegment::from_plain(&["Hello".to_string(), "World".to_string()]);
    let rtf = segments_to_rtf(&segments, &RtfOptions::default());
    assert!(rtf.contains("Hello"));
    assert!(rtf.contains("World"));
    assert!(!rtf.contains("\\red255\\green255\\blue0"));
}

#[test]
fn test_styled_segments_mixed_styles() {
    let segments = vec![
        StyledSegment::unstyled("Leader line"),
        StyledSegment {
            text: "Response line".to_string(),
            color: Some((255, 255, 0)),
            bold: Some(true),
            ..StyledSegment::default()
        },
    ];
    let rtf = segments_to_rtf(&segments, &RtfOptions::default());
    assert!(rtf.contains("\\red255\\green255\\blue0"));
    assert!(rtf.contains("\\b\\i0"));
    assert!(rtf.contains("Leader line"));
    assert!(rtf.contains("Response line"));
}

#[test]
fn generated_document_has_exact_shape() {
    let rtf = text_to_rtf("A{b}\u{2019}\u{b2}\u{b3}x\né");
    let expected = [
        "{\\rtf1\\ansi\\ansicpg1252\\cocoartf2821\n",
        "\\cocoatextscaling0\\cocoaplatform0{\\fonttbl\\f0\\fswiss\\fcharset0 Helvetica;}\n",
        "{\\colortbl;\\red255\\green255\\blue255;\\red255\\green255\\blue255;}\n",
        "{\\*\\expandedcolortbl;;\\cssrgb\\c100000\\c100000\\c100000;}\n",
        "\\deftab1680\n",
        "\\pard\\pardeftab1680\\sl20\\slleading480\\pardirnatural\\partightenfactor0\n\n",
        "\\f0\\fs160 \\cf2 \\kerning1\\expnd5\\expndtw25\\b0\\i0\n",
        "A\\{b\\}\\'92{\\super 23}x",
        "\\par \\f0\\fs160 \\cf2 \\kerning1\\expnd5\\expndtw25\\b0\\i0\n",
        "\\u233?}",
    ]
    .join("");
    assert_eq!(rtf, expected);
}

#[test]
fn override_colors_are_listed_once_in_first_use_order() {
    let red = Some((255, 0, 0));
    let blue = Some((0, 0, 255));
    let segment = |text: &str, color| StyledSegment {
        text: text.to_string(),
        color,
        bold: None,
        italic: Some(true),
    };
    let options = RtfOptions { kerning: -2, ..RtfOptions::default() };
    let rtf = segments_to_rtf(
        &[segment("a", blue), segment("b", red), segment("c", blue), segment("d", Some((255, 255, 255)))],
        &options,
    );
    assert!(rtf.contains(
        "{\\colortbl;\\red255\\green255\\blue255;\\red255\\green255\\blue255;\\red0\\green0\\blue255;\\red255\\green0\\blue0;}"
    ));
    assert!(rtf.contains("{\\*\\expandedcolortbl;;\\cssrgb\\c100000\\c100000\\c100000;;;}"));
    assert!(rtf.contains("\\cf3 \\kerning1\\expnd-2\\expndtw-10\\b0\\i\na"));
    assert!(rtf.contains("\\cf4 \\kerning1\\expnd-2\\expndtw-10\\b0\\i\nb"));
    assert!(rtf.contains("\\cf3 \\kerning1\\expnd-2\\expndtw-10\\b0\\i\nc"));
    assert!(rtf.contains("\\cf2 \\kerning1\\expnd-2\\expndtw-10\\b0\\i\nd"));
    let styled = text_to_rtf_styled("x", &options);
    assert!(styled.ends_with("\\b0\\i0\nx}"));
}

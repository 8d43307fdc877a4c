use proflow::document::{
    Action, ActionData, BaseSlide, CanvasSize, Cue, Presentation, PresentationSlide, SlideKind,
};
use proflow::resolution::{
    inspect_presentation_size, inspect_slide_size, resize_presentation_canvas, scale_rtf_font_sizes,
    PresentationResizeError,
    PresentationSize, PresentationSizeError, PresentationSizeStatus,
};

/// The integral canvas dimension a stored number denotes.
fn dimension(value: f64) -> Option<u32> {
    if !value.is_finite() || value <= 0.0 || value.fract() != 0.0 || value > f64::from(u32::MAX) {
        None
    } else {
        Some(value as u32)
    }
}

fn slide_with(size: Option<(f64, f64)>) -> PresentationSlide {
    PresentationSlide {
        base_slide: Some(BaseSlide {
            size: size.map(|(width, height)| CanvasSize {
                width: dimension(width),
                height: dimension(height),
            }),
            elements: Vec::new(),
        }),
        chord_chart: None,
        notes_attributes: None,
    }
}

fn presentation_with_sizes(sizes: &[Option<(f64, f64)>]) -> Presentation {
    Presentation {
        cues: sizes
            .iter()
            .map(|size| Cue {
                actions: vec![Action {
                    data: Some(ActionData::Slide {
                        slide: Some(SlideKind::Presentation(slide_with(*size))),
                    }),
                    ..Action::default()
                }],
                ..Cue::default()
            })
            .collect(),
        ..Presentation::default()
    }
}

#[test]
fn same_aspect_legacy_canvas_resizes_to_project_size() {
    let mut presentation = presentation_with_sizes(&[Some((1280.0, 720.0))]);

    assert!(
        resize_presentation_canvas(&mut presentation, PresentationSize::full_hd())
            .expect("same aspect ratio is mechanically resizable")
    );

    assert_eq!(
        inspect_presentation_size(&presentation),
        PresentationSizeStatus::Uniform {
            size: PresentationSize::full_hd()
        }
    );
}

#[test]
fn different_aspect_canvas_cannot_be_promised_or_resized() {
    let status = PresentationSizeStatus::Uniform {
        size: PresentationSize::new(1024, 768).expect("valid source size"),
    };
    assert!(matches!(
        status.resize_source(PresentationSize::full_hd()),
        Err(PresentationResizeError::AspectRatio { .. })
    ));

    let mut presentation = presentation_with_sizes(&[Some((1024.0, 768.0))]);
    assert!(matches!(
        resize_presentation_canvas(&mut presentation, PresentationSize::full_hd()),
        Err(PresentationResizeError::AspectRatio { .. })
    ));
}

#[test]
fn reports_uniform_mixed_and_missing_sizes() {
    let full_hd = PresentationSize::new(1920, 1080).expect("valid full HD size");
    assert_eq!(
        inspect_presentation_size(&presentation_with_sizes(&[
            Some((1920.0, 1080.0)),
            Some((1920.0, 1080.0)),
        ])),
        PresentationSizeStatus::Uniform { size: full_hd }
    );
    assert_eq!(
        inspect_presentation_size(&presentation_with_sizes(&[
            Some((1920.0, 1080.0)),
            Some((1280.0, 720.0)),
        ])),
        PresentationSizeStatus::Mixed {
            first: full_hd,
            conflicting: PresentationSize::new(1280, 720).expect("valid HD size"),
            slide_index: 1,
        }
    );
    assert_eq!(
        inspect_presentation_size(&presentation_with_sizes(&[None])),
        PresentationSizeStatus::Missing { slide_index: 0 }
    );
}

#[test]
fn zero_config_dimensions_are_rejected() {
    assert_eq!(
        PresentationSize::new(0, 1080),
        Err(PresentationSizeError::ZeroWidth)
    );
    assert_eq!(
        PresentationSize::new(1920, 0),
        Err(PresentationSizeError::ZeroHeight)
    );
}

#[test]
fn statuses_describe_themselves_with_one_based_slides() {
    let full_hd = PresentationSize::full_hd();
    let hd = PresentationSize::new(1280, 720).expect("valid");
    assert_eq!(full_hd.to_string(), "1920x1080");
    assert_eq!(PresentationSizeStatus::Empty.describe(), "no presentation slides");
    assert_eq!(PresentationSizeStatus::Uniform { size: hd }.describe(), "1280x720");
    assert_eq!(
        PresentationSizeStatus::Missing { slide_index: 0 }.describe(),
        "missing size on slide 1"
    );
    assert_eq!(
        PresentationSizeStatus::Invalid { slide_index: 4 }.describe(),
        "invalid size on slide 5"
    );
    assert_eq!(
        PresentationSizeStatus::Mixed { first: full_hd, conflicting: hd, slide_index: 2 }.describe(),
        "mixed (1920x1080, 1280x720 on slide 3)"
    );
    assert!(PresentationSizeStatus::Uniform { size: hd }.matches(hd));
    assert!(!PresentationSizeStatus::Uniform { size: hd }.matches(full_hd));
    assert_eq!(PresentationSize::default(), full_hd);
}

#[test]
fn fractional_and_absent_canvases_are_invalid_or_missing() {
    assert_eq!(
        inspect_slide_size(&slide_with(Some((1920.5, 1080.0)))),
        Err(PresentationSizeError::Invalid)
    );
    assert_eq!(
        inspect_slide_size(&PresentationSlide { base_slide: None, chord_chart: None, notes_attributes: None }),
        Err(PresentationSizeError::Missing)
    );
    assert_eq!(
        inspect_presentation_size(&presentation_with_sizes(&[
            Some((1920.0, 1080.0)),
            Some((0.0, 1080.0)),
        ])),
        PresentationSizeStatus::Invalid { slide_index: 1 }
    );
    assert_eq!(inspect_presentation_size(&Presentation::default()), PresentationSizeStatus::Empty);
    let status = PresentationSizeStatus::Missing { slide_index: 0 };
    assert_eq!(
        status.resize_source(PresentationSize::full_hd()),
        Err(PresentationResizeError::NonUniform(status))
    );
    let same = PresentationSizeStatus::Uniform { size: PresentationSize::full_hd() };
    assert_eq!(same.resize_source(PresentationSize::full_hd()), Ok(None));
}

fn text_element(rtf: &[u8]) -> proflow::document::SlideElement {
    proflow::document::SlideElement {
        element: Some(proflow::document::GraphicsElement {
            name: "Body".to_string(),
            fill: None,
            text: Some(proflow::document::GraphicsText { rtf_data: rtf.to_vec(), attributes: None }),
        }),
        data_links: Vec::new(),
    }
}

#[test]
fn resize_scales_rtf_font_sizes_by_the_vertical_ratio() {
    let mut presentation = presentation_with_sizes(&[Some((1280.0, 720.0))]);
    if let Some(ActionData::Slide { slide: Some(SlideKind::Presentation(slide)) }) = &mut presentation.cues[0].actions[0].data {
        slide.base_slide.as_mut().expect("base").elements.push(text_element(b"{\\rtf1\\f0\\fs48 \\fs3 A\\fs B}"));
    }
    assert!(resize_presentation_canvas(&mut presentation, PresentationSize::full_hd()).expect("resizable"));
    match &presentation.cues[0].actions[0].data {
        Some(ActionData::Slide { slide: Some(SlideKind::Presentation(slide)) }) => {
            let element = &slide.base_slide.as_ref().expect("base").elements[0];
            let text = element.element.as_ref().expect("element").text.as_ref().expect("text");
            assert_eq!(text.rtf_data, b"{\\rtf1\\f0\\fs72 \\fs5 A\\fs B}".to_vec());
        }
        _ => panic!("expected a presentation slide"),
    }
}

#[test]
fn font_size_scaling_keeps_parameters_that_are_not_u32() {
    assert_eq!(scale_rtf_font_sizes(b"\\fs99999999999 x", 2, 1), b"\\fs99999999999 x".to_vec());
    assert_eq!(scale_rtf_font_sizes(b"\\fs007\\fs", 2, 1), b"\\fs14\\fs".to_vec());
    assert_eq!(scale_rtf_font_sizes(b"plain", 3, 2), b"plain".to_vec());
}

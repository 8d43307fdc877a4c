use proflow::document::{
    BaseSlide, GraphicsElement, GraphicsText, PresentationSlide, SlideElement,
};
use proflow::presentation_spec::{CueRoleId, TextField};
use proflow::render::{
    RenderAssets, RenderError, RenderedCueRoles, ResolvedCueRole, SlideTemplate,
    TemplateSlotError,
};
use proflow::rtf::{segments_to_rtf_bytes, RtfOptions, StyledSegment};

fn text_element(name: &str, text: &str) -> SlideElement {
    SlideElement {
        element: Some(GraphicsElement {
            name: name.to_string(),
            fill: None,
            text: Some(GraphicsText {
                rtf_data: segments_to_rtf_bytes(
                    &[StyledSegment::unstyled(text)],
                    &RtfOptions::default(),
                ),
                attributes: None,
            }),
        }),
        data_links: Vec::new(),
    }
}

fn shape_element(name: &str) -> SlideElement {
    SlideElement {
        element: Some(GraphicsElement { name: name.to_string(), fill: None, text: None }),
        data_links: Vec::new(),
    }
}

fn template(elements: Vec<SlideElement>) -> PresentationSlide {
    PresentationSlide {
        base_slide: Some(BaseSlide { size: None, elements }),
        chord_chart: None,
        notes_attributes: None,
    }
}

fn role_id(value: &str) -> CueRoleId {
    CueRoleId::new(value).expect("role")
}

#[test]
fn default_body_ignores_empty_unnamed_helper_fields() {
    let slide = template(vec![
        text_element("Lyrics", "Old lyrics"),
        text_element("", ""),
    ]);
    let role = ResolvedCueRole::body(CueRoleId::new("content").expect("role"), &slide)
        .expect("one meaningful body field");

    assert_eq!(role.field_index(&TextField::body()), Ok(0));
}

#[test]
fn default_body_rejects_ambiguous_multi_field_templates() {
    let slide = template(vec![text_element("Name", "A"), text_element("Title", "B")]);
    let result = ResolvedCueRole::body(CueRoleId::new("content").expect("role"), &slide);

    assert!(matches!(
        result,
        Err(TemplateSlotError::AmbiguousDefaultSlot { count: 2 })
    ));
}

#[test]
fn unnamed_visible_text_counts_and_lone_empty_slot_is_the_default() {
    let slide = template(vec![shape_element("Box"), text_element("", "Visible")]);
    let role = ResolvedCueRole::body(role_id("content"), &slide).expect("visible unnamed");
    assert_eq!(role.field_index(&TextField::body()), Ok(1));

    let lone = template(vec![text_element("", "")]);
    let template = SlideTemplate::inspect(&lone).expect("inspect");
    assert_eq!(template.default_candidate_count(), 1);

    let none = template_without_text();
    let result = ResolvedCueRole::body(role_id("content"), &none);
    assert!(matches!(
        result,
        Err(TemplateSlotError::AmbiguousDefaultSlot { count: 0 })
    ));
}

fn template_without_text() -> PresentationSlide {
    template(vec![text_element("", ""), text_element("", " ")])
}

#[test]
fn duplicate_trimmed_slot_names_are_rejected() {
    let slide = template(vec![text_element("Title ", "A"), text_element(" Title", "B")]);
    assert!(matches!(
        SlideTemplate::inspect(&slide),
        Err(TemplateSlotError::DuplicateNativeSlot { ref name }) if name == "Title"
    ));
}

#[test]
fn named_slots_are_sorted_and_unique() {
    let slide = template(vec![
        text_element("Title", "A"),
        text_element("", "B"),
        text_element("Name", "C"),
    ]);
    let template = SlideTemplate::inspect(&slide).expect("inspect");
    assert_eq!(template.named_slots(), vec!["Name".to_string(), "Title".to_string()]);
    assert_eq!(template.named_index("Title"), Ok(0));
    assert_eq!(
        template.named_index("Missing"),
        Err(TemplateSlotError::UnknownNativeSlot { name: "Missing".to_string() })
    );
    assert!(std::ptr::eq(template.slide(), &slide));
}

#[test]
fn explicit_slots_bind_exact_names_in_order() {
    let slide = template(vec![text_element("Name", "A"), text_element("Title", "B")]);
    let name = TextField::new("name").expect("field");
    let title = TextField::new("title").expect("field");
    let role = ResolvedCueRole::with_slots(
        role_id("nametag"),
        &slide,
        (name.clone(), "Name"),
        vec![(title.clone(), "Title")],
    )
    .expect("resolved named fields");
    assert_eq!(role.field_index(&name), Ok(0));
    assert_eq!(role.field_index(&title), Ok(1));
    assert_eq!(role.id().as_str(), "nametag");
    assert_eq!(
        role.field_index(&TextField::body()),
        Err(TemplateSlotError::UnknownSemanticField {
            role: "nametag".to_string(),
            field: "body".to_string()
        })
    );
}

#[test]
fn explicit_slot_errors_follow_binding_order() {
    let slide = template(vec![text_element("Name", "A"), text_element("Title", "B")]);
    let name = TextField::new("name").expect("field");
    let title = TextField::new("title").expect("field");
    assert_eq!(
        ResolvedCueRole::with_slots(
            role_id("r"),
            &slide,
            (name.clone(), "Name"),
            vec![(name.clone(), "Title")],
        )
        .err(),
        Some(TemplateSlotError::DuplicateSemanticBinding {
            role: "r".to_string(),
            field: "name".to_string()
        })
    );
    assert_eq!(
        ResolvedCueRole::with_slots(
            role_id("r"),
            &slide,
            (name.clone(), "Name"),
            vec![(title.clone(), "Name")],
        )
        .err(),
        Some(TemplateSlotError::DuplicateNativeBinding {
            role: "r".to_string(),
            slot: "Name".to_string()
        })
    );
    assert_eq!(
        ResolvedCueRole::with_slots(role_id("r"), &slide, (name, "Nope"), Vec::new()).err(),
        Some(TemplateSlotError::UnknownNativeSlot { name: "Nope".to_string() })
    );
}

#[test]
fn static_slide_role_has_no_fields() {
    let slide = template(vec![shape_element("Logo")]);
    let role = ResolvedCueRole::static_slide(role_id("logo"), &slide).expect("static");
    assert!(role.field_index(&TextField::body()).is_err());
    assert!(std::ptr::eq(role.slide(), &slide));
}

#[test]
fn render_assets_reject_duplicate_roles_and_find_roles() {
    let slide = template(vec![text_element("Body", "")]);
    let a = ResolvedCueRole::body(role_id("a"), &slide).expect("a");
    let b = ResolvedCueRole::body(role_id("b"), &slide).expect("b");
    let a2 = ResolvedCueRole::body(role_id("a"), &slide).expect("a2");
    assert!(matches!(
        RenderAssets::new(a, vec![b, a2]),
        Err(RenderError::DuplicateRole { ref role }) if role == "a"
    ));

    let a = ResolvedCueRole::body(role_id("a"), &slide).expect("a");
    let b = ResolvedCueRole::body(role_id("b"), &slide).expect("b");
    let assets = RenderAssets::new(a, vec![b]).expect("assets");
    assert_eq!(assets.role(&role_id("b")).expect("b").id().as_str(), "b");
    assert!(matches!(
        assets.role(&role_id("c")),
        Err(RenderError::MissingRole { ref role }) if role == "c"
    ));
}

#[test]
fn operator_order_records_generic_role_transitions() {
    let title_id = role_id("title");
    let content_id = role_id("content");
    let roles = vec![title_id.clone(), content_id.clone(), title_id.clone()];
    let rendered = RenderedCueRoles::from_operator_order(&[0, 1, 2], &roles).expect("roles");

    assert_eq!(rendered.entries(&title_id), vec![0, 2]);
    assert_eq!(rendered.entries(&content_id), vec![1]);
    assert_eq!(
        rendered
            .transitions()
            .iter()
            .map(|t| t.cue_index())
            .collect::<Vec<_>>(),
        vec![0, 1, 2]
    );
}

#[test]
fn repeated_role_in_traversal_is_one_transition_and_unknown_cue_is_an_error() {
    let shared = role_id("shared");
    let divider = role_id("divider");
    let roles = vec![shared.clone(), shared.clone(), divider.clone()];
    let rendered = RenderedCueRoles::from_operator_order(&[0, 1, 2, 0, 1], &roles).expect("roles");
    let steps = rendered
        .transitions()
        .iter()
        .map(|t| (t.cue_index(), t.role().as_str().to_string()))
        .collect::<Vec<_>>();
    assert_eq!(
        steps,
        vec![
            (0, "shared".to_string()),
            (2, "divider".to_string()),
            (0, "shared".to_string())
        ]
    );
    assert_eq!(rendered.entries(&shared), vec![0]);
    assert_eq!(
        RenderedCueRoles::from_operator_order(&[0, 7, 9], &roles),
        Err(RenderError::MissingRenderedCueRole { index: 7, cue_count: 3 })
    );
}

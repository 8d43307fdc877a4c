use proflow::presentation_spec::{
    ArrangementName, ArrangementSpec, CueLabel, CueRoleId, CueSpec, GroupId, GroupSpec,
    PresentationSpec, PresentationSpecError, TextBindings, TextField,
};
use proflow::rtf::StyledSegment;

#[test]
fn checked_collections_are_nonempty_by_construction() {
    let role = CueRoleId::new("content").expect("valid role");
    let cue = CueSpec::static_slide(role);
    let group = GroupSpec::anonymous(cue, Vec::new());
    let presentation =
        PresentationSpec::new("Service", group, Vec::new()).expect("valid presentation");

    assert_eq!(presentation.groups().len(), 1);
    assert_eq!(
        presentation
            .groups()
            .first()
            .map(|group| group.cues().len()),
        Some(1)
    );
}

#[test]
fn duplicate_text_fields_are_rejected() {
    let body = TextField::body();
    let result = TextBindings::new(
        (body.clone(), vec![StyledSegment::unstyled("first")]),
        vec![(body, vec![StyledSegment::unstyled("second")])],
    );

    assert!(matches!(
        result,
        Err(PresentationSpecError::DuplicateTextField { field }) if field == "body"
    ));
}

#[test]
fn native_identifiers_reject_control_characters() {
    assert!(matches!(
        CueRoleId::new("content\nsecond"),
        Err(PresentationSpecError::InvalidIdentifier { kind: "cue role" })
    ));
    assert!(matches!(
        CueLabel::new("1-3\r"),
        Err(PresentationSpecError::InvalidCueLabel)
    ));
}

#[test]
fn presentation_rejects_duplicate_semantic_group_identities() {
    let role = CueRoleId::new("content").expect("role");
    let group_id = GroupId::new("verse").expect("group id");
    let first = GroupSpec::anonymous_with_id(
        group_id.clone(),
        CueSpec::static_slide(role.clone()),
        Vec::new(),
    );
    let duplicate =
        GroupSpec::anonymous_with_id(group_id, CueSpec::static_slide(role), Vec::new());

    assert!(matches!(
        PresentationSpec::new("Song", first, vec![duplicate]),
        Err(PresentationSpecError::DuplicateGroupId { id }) if id == "verse"
    ));
}

#[test]
fn duplicate_group_display_names_remain_distinct_by_semantic_id() {
    let role = CueRoleId::new("content").expect("role");
    let first = GroupSpec::named_with_id(
        GroupId::new("verse-early").expect("group id"),
        "Verse",
        CueSpec::static_slide(role.clone()),
        Vec::new(),
    )
    .expect("named group");
    let second = GroupSpec::named_with_id(
        GroupId::new("verse-late").expect("group id"),
        "Verse",
        CueSpec::static_slide(role),
        Vec::new(),
    )
    .expect("named group");

    let presentation =
        PresentationSpec::new("Song", first, vec![second]).expect("distinct group ids");

    assert_eq!(
        presentation
            .groups()
            .iter()
            .filter_map(|group| group.name())
            .collect::<Vec<_>>(),
        vec!["Verse", "Verse"]
    );
}

#[test]
fn arrangement_references_are_checked_without_removing_repeats() {
    let role = CueRoleId::new("content").expect("role");
    let verse_id = GroupId::new("verse").expect("group id");
    let chorus_id = GroupId::new("chorus").expect("group id");
    let first = GroupSpec::anonymous_with_id(
        verse_id.clone(),
        CueSpec::static_slide(role.clone()),
        Vec::new(),
    );
    let chorus = GroupSpec::anonymous_with_id(
        chorus_id.clone(),
        CueSpec::static_slide(role),
        Vec::new(),
    );
    let arrangement = ArrangementSpec::new(
        "Default",
        verse_id.clone(),
        vec![chorus_id.clone(), verse_id, chorus_id],
    )
    .expect("arrangement");

    let presentation = PresentationSpec::new("Song", first, vec![chorus])
        .expect("presentation")
        .with_arrangements(
            vec![arrangement],
            Some(ArrangementName::new("default").expect("selection")),
        )
        .expect("checked arrangements");
    let arrangement = presentation.arrangements().first().expect("one arrangement");

    assert_eq!(
        arrangement
            .groups()
            .iter()
            .map(|group| group.as_str())
            .collect::<Vec<_>>(),
        vec!["verse", "chorus", "verse", "chorus"]
    );
    assert_eq!(
        presentation
            .selected_arrangement()
            .map(ArrangementName::as_str),
        Some("Default")
    );
}

#[test]
fn arrangements_reject_dangling_groups_ambiguous_names_and_unknown_selection() {
    let make_presentation = || {
        PresentationSpec::new(
            "Song",
            GroupSpec::anonymous_with_id(
                GroupId::new("verse").expect("group id"),
                CueSpec::static_slide(CueRoleId::new("content").expect("role")),
                Vec::new(),
            ),
            Vec::new(),
        )
        .expect("presentation")
    };
    let dangling = ArrangementSpec::new(
        "Default",
        GroupId::new("missing").expect("group id"),
        Vec::new(),
    )
    .expect("arrangement");
    assert!(matches!(
        make_presentation().with_arrangements(vec![dangling], None),
        Err(PresentationSpecError::UnknownArrangementGroup { group, .. })
            if group == "missing"
    ));

    let verse = GroupId::new("verse").expect("group id");
    let first =
        ArrangementSpec::new("Default", verse.clone(), Vec::new()).expect("arrangement");
    let duplicate = ArrangementSpec::new("default", verse, Vec::new()).expect("arrangement");
    assert!(matches!(
        make_presentation().with_arrangements(vec![first, duplicate], None),
        Err(PresentationSpecError::DuplicateArrangementName { .. })
    ));

    assert!(matches!(
        make_presentation().with_arrangements(
            Vec::new(),
            Some(ArrangementName::new("Missing").expect("selection")),
        ),
        Err(PresentationSpecError::UnknownSelectedArrangement { name })
            if name == "Missing"
    ));
}

#[test]
fn identifiers_reject_padding_and_blank_values() {
    assert!(matches!(
        GroupId::new(" verse"),
        Err(PresentationSpecError::InvalidIdentifier { kind: "cue group id" })
    ));
    assert!(matches!(
        TextField::new(""),
        Err(PresentationSpecError::InvalidIdentifier { kind: "text field" })
    ));
    assert!(matches!(
        ArrangementName::new("Default "),
        Err(PresentationSpecError::InvalidIdentifier { kind: "arrangement name" })
    ));
    assert_eq!(GroupId::root().as_str(), "__proflow_root");
    assert_eq!(TextField::body().as_str(), "body");
}

#[test]
fn text_bindings_iterate_in_field_order() {
    let bindings = TextBindings::new(
        (TextField::new("title").expect("field"), vec![StyledSegment::unstyled("T")]),
        vec![
            (TextField::new("body").expect("field"), vec![StyledSegment::unstyled("B")]),
            (TextField::new("name").expect("field"), vec![StyledSegment::unstyled("N")]),
        ],
    )
    .expect("distinct fields");
    let fields = bindings
        .iter()
        .iter()
        .map(|(field, _)| field.as_str().to_string())
        .collect::<Vec<_>>();
    assert_eq!(fields, vec!["body", "name", "title"]);
}

#[test]
fn cue_label_is_attached_and_named_group_uses_its_name_as_identity() {
    let role = CueRoleId::new("content").expect("role");
    let cue = CueSpec::static_slide(role).with_label(CueLabel::new("1-3").expect("label"));
    assert_eq!(cue.label().map(CueLabel::as_str), Some("1-3"));
    let group = GroupSpec::named("Chorus", cue, Vec::new()).expect("named group");
    assert_eq!(group.id().as_str(), "Chorus");
    assert_eq!(group.name(), Some("Chorus"));
}

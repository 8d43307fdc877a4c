use proflow::document::{Action, Arrangement, Cue, CueGroup, Group, Presentation};
use proflow::presentation_graph::{
    ActionIndex, ActionReferenceResolution, PresentationReferenceDiagnostic,
    ReferenceResolution, ResolvedPresentationGraph,
};

fn id(value: &str) -> Option<String> {
    Some(value.to_string())
}

fn group(uuid: &str, cues: &[&str]) -> CueGroup {
    CueGroup {
        group: Some(Group { uuid: id(uuid), name: String::new() }),
        cue_identifiers: cues.iter().map(|c| c.to_string()).collect(),
    }
}

fn arrangement(uuid: &str, groups: &[&str]) -> Arrangement {
    Arrangement {
        uuid: id(uuid),
        name: String::new(),
        group_identifiers: groups.iter().map(|g| g.to_string()).collect(),
    }
}

fn sample() -> Presentation {
    Presentation {
        cues: vec![
            Cue {
                uuid: id("cue"),
                actions: vec![Action { uuid: id("action"), ..Default::default() }],
                ..Default::default()
            },
            Cue { uuid: id("cue"), ..Default::default() },
        ],
        cue_groups: vec![group("group", &["cue"])],
        arrangements: vec![arrangement("arrangement", &["group"])],
        ..Default::default()
    }
}

#[test]
fn resolves_all_document_identity_kinds_without_guessing_duplicates() {
    let presentation = sample();
    let graph = ResolvedPresentationGraph::new(&presentation);
    assert!(matches!(
        graph.cue("cue"),
        ReferenceResolution::Ambiguous(ref v) if *v == vec![0, 1]
    ));
    assert!(matches!(graph.group("group"), ReferenceResolution::Unique(0)));
    assert!(matches!(
        graph.arrangement("arrangement"),
        ReferenceResolution::Unique(0)
    ));
    assert!(matches!(
        graph.action("action"),
        ActionReferenceResolution::Unique(ActionIndex {
            cue_index: 0,
            action_index: 0
        })
    ));
}

#[test]
fn missing_identities_resolve_as_missing() {
    let presentation = sample();
    let graph = ResolvedPresentationGraph::new(&presentation);
    assert_eq!(graph.cue("nope"), ReferenceResolution::Missing);
    assert_eq!(graph.group("cue"), ReferenceResolution::Missing);
    assert_eq!(graph.action("cue"), ActionReferenceResolution::Missing);
    assert!(std::ptr::eq(graph.presentation(), &presentation));
}

#[test]
fn duplicate_actions_report_the_first_location() {
    let mut presentation = sample();
    presentation.cues[1]
        .actions
        .push(Action { uuid: id("x"), ..Default::default() });
    presentation.cues[1]
        .actions
        .push(Action { uuid: id("action"), ..Default::default() });
    let graph = ResolvedPresentationGraph::new(&presentation);
    assert_eq!(
        graph.action("action"),
        ActionReferenceResolution::Ambiguous {
            first: ActionIndex { cue_index: 0, action_index: 0 }
        }
    );
    assert_eq!(
        graph.action("x"),
        ActionReferenceResolution::Unique(ActionIndex { cue_index: 1, action_index: 0 })
    );
}

#[test]
fn diagnostics_report_duplicates_then_selection_then_references() {
    let mut presentation = sample();
    presentation.cues.push(Cue { uuid: id("b-cue"), ..Default::default() });
    presentation.cues.push(Cue { uuid: id("a-cue"), ..Default::default() });
    presentation.cues.push(Cue { uuid: id("a-cue"), ..Default::default() });
    presentation.cues.push(Cue { uuid: id("b-cue"), ..Default::default() });
    presentation.cue_groups.push(group("group", &["missing", "a-cue", "cue-2"]));
    presentation.arrangements.push(arrangement("arrangement", &["gone", "group"]));
    presentation.selected_arrangement = id("arrangement");
    let graph = ResolvedPresentationGraph::new(&presentation);
    let diagnostics = graph.reference_diagnostics();
    let expected = vec![
        PresentationReferenceDiagnostic::DuplicateCueUuid {
            uuid: "a-cue".to_string(),
            cue_indexes: vec![3, 4],
        },
        PresentationReferenceDiagnostic::DuplicateCueUuid {
            uuid: "b-cue".to_string(),
            cue_indexes: vec![2, 5],
        },
        PresentationReferenceDiagnostic::DuplicateCueUuid {
            uuid: "cue".to_string(),
            cue_indexes: vec![0, 1],
        },
        PresentationReferenceDiagnostic::DuplicateCueGroupUuid {
            uuid: "group".to_string(),
            cue_group_indexes: vec![0, 1],
        },
        PresentationReferenceDiagnostic::DuplicateArrangementUuid {
            uuid: "arrangement".to_string(),
            arrangement_indexes: vec![0, 1],
        },
        PresentationReferenceDiagnostic::AmbiguousSelectedArrangement {
            uuid: "arrangement".to_string(),
            arrangement_indexes: vec![0, 1],
        },
        PresentationReferenceDiagnostic::AmbiguousCueReference {
            cue_group_index: 0,
            reference_index: 0,
            uuid: "cue".to_string(),
            cue_indexes: vec![0, 1],
        },
        PresentationReferenceDiagnostic::DanglingCueReference {
            cue_group_index: 1,
            reference_index: 0,
            uuid: "missing".to_string(),
        },
        PresentationReferenceDiagnostic::AmbiguousCueReference {
            cue_group_index: 1,
            reference_index: 1,
            uuid: "a-cue".to_string(),
            cue_indexes: vec![3, 4],
        },
        PresentationReferenceDiagnostic::DanglingCueReference {
            cue_group_index: 1,
            reference_index: 2,
            uuid: "cue-2".to_string(),
        },
        PresentationReferenceDiagnostic::AmbiguousGroupReference {
            arrangement_index: 0,
            reference_index: 0,
            uuid: "group".to_string(),
            cue_group_indexes: vec![0, 1],
        },
        PresentationReferenceDiagnostic::DanglingGroupReference {
            arrangement_index: 1,
            reference_index: 0,
            uuid: "gone".to_string(),
        },
        PresentationReferenceDiagnostic::AmbiguousGroupReference {
            arrangement_index: 1,
            reference_index: 1,
            uuid: "group".to_string(),
            cue_group_indexes: vec![0, 1],
        },
    ];
    assert_eq!(diagnostics, expected);
}

#[test]
fn dangling_selection_is_reported_and_clean_documents_report_nothing() {
    let mut presentation = Presentation {
        cues: vec![Cue { uuid: id("c"), ..Default::default() }],
        cue_groups: vec![group("g", &["c"])],
        arrangements: vec![arrangement("a", &["g"])],
        selected_arrangement: id("a"),
        ..Default::default()
    };
    assert!(ResolvedPresentationGraph::new(&presentation)
        .reference_diagnostics()
        .is_empty());
    presentation.selected_arrangement = id("z");
    assert_eq!(
        ResolvedPresentationGraph::new(&presentation).reference_diagnostics(),
        vec![PresentationReferenceDiagnostic::DanglingSelectedArrangement {
            uuid: "z".to_string()
        }]
    );
}

use proflow::document::{Action, ActionData, CollectionElementType, Cue, Presentation};
use proflow::macros::{
    add_macro_to_cue_entries, cue_has_macro_named, macro_action_name, MacroApplyError, MacroCache,
    MacroCollection, MacroCollectionItem, MacroDefinition, MacroDocumentError, MacrosDocument,
};

fn definition(name: &str, id: &str) -> MacroDefinition {
    MacroDefinition { uuid: Some(id.to_string()), name: name.to_string() }
}

fn cache_of(entries: &[(&str, &str)]) -> MacroCache {
    MacroCache::load_from(&MacrosDocument {
        macros: entries.iter().map(|(name, id)| definition(name, id)).collect(),
        macro_collections: Vec::new(),
    })
    .expect("distinct macro names")
}

fn presentation_with(cues: usize) -> Presentation {
    Presentation {
        cues: (0..cues).map(|_| Cue::default()).collect(),
        ..Presentation::default()
    }
}

fn macro_action(name: &str, id: &str) -> Action {
    Action {
        uuid: Some(format!("{name}-action")),
        name: name.to_string(),
        action_type: proflow::document::ACTION_TYPE_MACRO,
        is_enabled: true,
        data: Some(ActionData::Macro {
            identification: Some(CollectionElementType {
                parameter_uuid: Some(id.to_string()),
                parameter_name: name.to_string(),
                parent_collection: None,
            }),
        }),
    }
}

#[test]
fn macro_is_added_to_each_explicit_region_entry() {
    let cache = cache_of(&[("Scripture/Prayer", "00000000-0000-0000-0000-000000000001")]);
    let mut presentation = presentation_with(3);

    add_macro_to_cue_entries(&mut presentation, &[0, 2], "Scripture/Prayer", &cache)
        .expect("valid cue entries");

    assert_eq!(presentation.cues[0].actions.len(), 1);
    assert!(presentation.cues[1].actions.is_empty());
    assert_eq!(presentation.cues[2].actions.len(), 1);
}

#[test]
fn title_and_content_macros_follow_rendered_role_boundaries() {
    let cache = cache_of(&[
        ("Title", "00000000-0000-0000-0000-000000000001"),
        ("Content", "00000000-0000-0000-0000-000000000002"),
    ]);
    let mut presentation = presentation_with(5);

    add_macro_to_cue_entries(&mut presentation, &[0, 3], "Title", &cache)
        .expect("valid title entries");
    add_macro_to_cue_entries(&mut presentation, &[1, 4], "Content", &cache)
        .expect("valid content entries");

    assert!(cue_has_macro_named(&presentation.cues[0], "Title"));
    assert!(cue_has_macro_named(&presentation.cues[1], "Content"));
    assert!(presentation.cues[2].actions.is_empty());
    assert!(cue_has_macro_named(&presentation.cues[3], "Title"));
    assert!(cue_has_macro_named(&presentation.cues[4], "Content"));
}

#[test]
fn invalid_region_entry_does_not_partially_apply_macros() {
    let cache = cache_of(&[("Title", "macro-id")]);
    let mut presentation = presentation_with(1);

    let error = add_macro_to_cue_entries(&mut presentation, &[0, 1], "Title", &cache)
        .expect_err("stale cue metadata must fail");

    assert_eq!(
        error,
        MacroApplyError::CueUnavailable {
            index: 1,
            cue_count: 1
        }
    );
    assert!(presentation.cues[0].actions.is_empty());
}

#[test]
fn macro_lookup_requires_the_exact_installed_name() {
    let cache = cache_of(&[("Title", "one")]);

    assert!(cache.find("Title").is_some());
    assert!(cache.find("title").is_none());

    let mut presentation = Presentation {
        cues: vec![Cue {
            actions: vec![macro_action("title", "lowercase")],
            ..Cue::default()
        }],
        ..Presentation::default()
    };
    add_macro_to_cue_entries(&mut presentation, &[0], "Title", &cache)
        .expect("installed exact macro");
    assert!(cue_has_macro_named(&presentation.cues[0], "Title"));
}

#[test]
fn duplicate_canonical_macro_names_are_rejected() {
    let document = MacrosDocument {
        macros: vec![definition("Scripture/Prayer", "one"), definition("scripture/prayer", "two")],
        macro_collections: Vec::new(),
    };

    assert!(matches!(
        MacroCache::load_from(&document),
        Err(MacroDocumentError::DuplicateName { .. })
    ));
}

#[test]
fn loaded_macro_action_preserves_collection_and_native_name() {
    let document = MacrosDocument {
        macros: vec![definition("Scripture/Prayer", "macro-id")],
        macro_collections: vec![MacroCollection {
            uuid: Some("collection-id".to_string()),
            name: "Service".to_string(),
            items: vec![MacroCollectionItem::MacroId("macro-id".to_string())],
        }],
    };
    let cache = MacroCache::load_from(&document).expect("valid document");
    let (name, identification) = cache.find("Scripture/Prayer").expect("installed");
    assert_eq!(name, "Scripture/Prayer");
    assert_eq!(identification.parameter_uuid.as_deref(), Some("macro-id"));
    let parent = identification.parent_collection.as_ref().expect("collection");
    assert_eq!(parent.parameter_name, "Service");
    assert_eq!(parent.parameter_uuid.as_deref(), Some("collection-id"));

    let mut presentation = presentation_with(1);
    add_macro_to_cue_entries(&mut presentation, &[0], "Scripture/Prayer", &cache)
        .expect("installed macro");
    let action = &presentation.cues[0].actions[0];
    assert_eq!(macro_action_name(action), Some("Scripture/Prayer"));
    assert_eq!(action.name, "Scripture/Prayer");
    assert_eq!(action.uuid.as_ref().map(|id| id.len()), Some(36));
}

#[test]
fn catalog_lists_names_in_order_and_rejects_unknown_macros() {
    let cache = cache_of(&[("Song", "b"), ("Name Tag/Title", "a"), ("Wrong", "c")]);
    assert_eq!(cache.len(), 3);
    assert!(!cache.is_empty());
    assert!(MacroCache::empty().is_empty());
    assert_eq!(cache.names(), vec!["Name Tag/Title", "Song", "Wrong"]);
    let mut presentation = presentation_with(1);
    assert_eq!(
        add_macro_to_cue_entries(&mut presentation, &[0], "Missing", &cache),
        Err(MacroApplyError::Unavailable("Missing".to_string()))
    );
    assert!(presentation.cues[0].actions.is_empty());
    add_macro_to_cue_entries(&mut presentation, &[0, 0], "Song", &cache).expect("twice listed");
    add_macro_to_cue_entries(&mut presentation, &[0], "Song", &cache).expect("again");
    assert_eq!(presentation.cues[0].actions.len(), 1);
    let nameless = MacrosDocument {
        macros: vec![MacroDefinition { uuid: None, name: "Orphan".to_string() }, definition("", "x")],
        macro_collections: Vec::new(),
    };
    assert!(MacroCache::load_from(&nameless).expect("skips unusable").is_empty());
}

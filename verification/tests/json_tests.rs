use simple_notes::json::note_to_json;
use simple_notes::markdown::generate_markdown;
use simple_notes::models::{ChecklistItem, Note, NoteType, SyncStatus};

fn shopping_note() -> Note {
    Note {
        id: "0f8fad5b-d9cb-469f-a165-70867728950e".to_string(),
        title: "Shopping".to_string(),
        content: "[ ] Buy milk\n[x] Eggs".to_string(),
        created_at: 1770200729000,
        updated_at: 1770200729000,
        device_id: "tauri-abc".to_string(),
        sync_status: SyncStatus::Synced,
        note_type: NoteType::Checklist,
        checklist_items: Some(vec![
            ChecklistItem {
                id: "a".to_string(),
                text: "Buy milk".to_string(),
                is_checked: false,
                order: 0,
            },
            ChecklistItem {
                id: "b".to_string(),
                text: "Eggs".to_string(),
                is_checked: true,
                order: 1,
            },
        ]),
        checklist_sort_option: Some("MANUAL".to_string()),
    }
}

#[test]
fn test_save_documents_for_checklist_note() {
    // The mirror document body lists the items in order.
    let note = shopping_note();
    let md = generate_markdown(&note);
    assert!(md.contains("# Shopping"));
    assert!(md.ends_with("- [ ] Buy milk\n- [x] Eggs\n"));

    // The canonical JSON document preserves both entries with their order.
    let json = note_to_json(&note);
    let value: serde_json::Value = serde_json::from_str(&json).unwrap();
    assert_eq!(value["id"], "0f8fad5b-d9cb-469f-a165-70867728950e");
    assert_eq!(value["title"], "Shopping");
    let items = value["checklistItems"].as_array().unwrap();
    assert_eq!(items.len(), 2);
    assert_eq!(items[0]["text"], "Buy milk");
    assert_eq!(items[0]["isChecked"], false);
    assert_eq!(items[0]["order"], 0);
    assert_eq!(items[1]["text"], "Eggs");
    assert_eq!(items[1]["isChecked"], true);
    assert_eq!(items[1]["order"], 1);
    assert_eq!(value["checklistSortOption"], "MANUAL");
}

#[test]
fn test_json_omits_absent_checklist_fields() {
    let note = Note {
        id: "x".to_string(),
        title: "T".to_string(),
        content: "c".to_string(),
        created_at: 1,
        updated_at: 2,
        device_id: "d".to_string(),
        sync_status: SyncStatus::Pending,
        note_type: NoteType::Text,
        checklist_items: None,
        checklist_sort_option: None,
    };
    let json = note_to_json(&note);
    assert!(!json.contains("checklistItems"));
    assert!(!json.contains("checklistSortOption"));
    let value: serde_json::Value = serde_json::from_str(&json).unwrap();
    assert_eq!(value["syncStatus"], "PENDING");
    assert_eq!(value["noteType"], "TEXT");
    assert_eq!(value["createdAt"], 1);
    assert_eq!(value["updatedAt"], 2);
}

#[test]
fn test_json_escapes_strings() {
    let mut note = shopping_note();
    note.title = "Quote \" back\\slash \n tab\t".to_string();
    note.checklist_items = None;
    note.checklist_sort_option = None;
    let json = note_to_json(&note);
    let value: serde_json::Value = serde_json::from_str(&json).unwrap();
    assert_eq!(value["title"], "Quote \" back\\slash \n tab\t");
}

#[test]
fn test_json_negative_timestamps() {
    let mut note = shopping_note();
    note.created_at = -12345;
    note.checklist_items = None;
    note.checklist_sort_option = None;
    let json = note_to_json(&note);
    let value: serde_json::Value = serde_json::from_str(&json).unwrap();
    assert_eq!(value["createdAt"], -12345);
}

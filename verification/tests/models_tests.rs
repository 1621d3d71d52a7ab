use simple_notes::models::{ChecklistItem, Note, NoteMetadata, NoteType};

#[test]
fn test_note_creation() {
    let note = Note::new("Test Title".to_string(), "tauri-abc123".to_string());

    assert!(!note.id.is_empty());
    assert_eq!(note.title, "Test Title");
    assert_eq!(note.device_id, "tauri-abc123");
    assert_eq!(note.note_type, NoteType::Text);
    assert!(note.created_at > 0);
    assert_eq!(note.created_at, note.updated_at);
}

#[test]
fn test_checklist_note_creation() {
    let note = Note::new_checklist("Shopping".to_string(), "tauri-abc123".to_string());

    assert_eq!(note.note_type, NoteType::Checklist);
    assert!(note.checklist_items.is_some());
    assert!(note.checklist_items.unwrap().is_empty());
}

#[test]
fn test_checklist_item_creation() {
    let item = ChecklistItem::new("Buy milk".to_string(), 0);

    assert!(!item.id.is_empty());
    assert_eq!(item.text, "Buy milk");
    assert!(!item.is_checked);
    assert_eq!(item.order, 0);
}

#[test]
fn test_fresh_ids_are_uuid_shaped() {
    let item = ChecklistItem::new("x".to_string(), 3);
    assert_eq!(item.id.len(), 36);
    let bytes: Vec<char> = item.id.chars().collect();
    assert_eq!(bytes[8], '-');
    assert_eq!(bytes[13], '-');
    assert_eq!(bytes[18], '-');
    assert_eq!(bytes[23], '-');
}

#[test]
fn test_touch_keeps_other_fields() {
    let mut note = Note::new("Test".to_string(), "tauri-abc".to_string());
    let id = note.id.clone();
    note.touch();
    assert_eq!(note.id, id);
    assert_eq!(note.title, "Test");
    assert_eq!(note.device_id, "tauri-abc");
}

#[test]
fn test_generate_checklist_fallback() {
    let mut note = Note::new_checklist("List".to_string(), "tauri-abc".to_string());
    note.checklist_items = Some(vec![
        ChecklistItem {
            id: "1".to_string(),
            text: "Item A".to_string(),
            is_checked: false,
            order: 0,
        },
        ChecklistItem {
            id: "2".to_string(),
            text: "Item B".to_string(),
            is_checked: true,
            order: 1,
        },
    ]);

    let fallback = note.generate_checklist_fallback();

    assert!(fallback.contains("[ ] Item A"));
    assert!(fallback.contains("[x] Item B"));
}

#[test]
fn test_note_metadata_from_note() {
    let note = Note::new("My Note".to_string(), "tauri-abc".to_string());
    let meta = NoteMetadata::from_note(&note);

    assert_eq!(meta.id, note.id);
    assert_eq!(meta.title, note.title);
    assert_eq!(meta.updated_at, note.updated_at);
    assert_eq!(meta.note_type, note.note_type);
}

#[test]
fn test_fix_note_type_promotes_checklist() {
    let mut note = Note::new("n".to_string(), "d".to_string());
    note.checklist_items = Some(vec![ChecklistItem {
        id: "1".to_string(),
        text: "a".to_string(),
        is_checked: false,
        order: 0,
    }]);
    assert_eq!(note.note_type, NoteType::Text);
    note.fix_note_type();
    assert_eq!(note.note_type, NoteType::Checklist);
}

#[test]
fn test_fix_note_type_fills_missing_items() {
    let mut note = Note::new("n".to_string(), "d".to_string());
    note.note_type = NoteType::Checklist;
    assert!(note.checklist_items.is_none());
    note.fix_note_type();
    assert_eq!(note.note_type, NoteType::Checklist);
    assert_eq!(note.checklist_items.unwrap().len(), 0);
}

#[test]
fn test_fix_note_type_leaves_plain_text_alone() {
    let mut note = Note::new("n".to_string(), "d".to_string());
    note.fix_note_type();
    assert_eq!(note.note_type, NoteType::Text);
    assert!(note.checklist_items.is_none());
}

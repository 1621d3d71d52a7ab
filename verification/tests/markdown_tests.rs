use simple_notes::markdown::{
    generate_checklist_fallback, generate_markdown, parse_checklist_items, parse_markdown,
    recover_checklist_from_content,
};
use simple_notes::models::{ChecklistItem, Note, NoteType};
use simple_notes::error::AppError;

#[test]
fn test_parse_checklist_items() {
    let content = "- [ ] Item 1\n- [x] Item 2\n- [X] Item 3";
    let items = parse_checklist_items(content);
    assert_eq!(items.len(), 3);
    assert!(!items[0].is_checked);
    assert!(items[1].is_checked);
    assert!(items[2].is_checked);
}

#[test]
fn test_parse_checklist_items_texts_and_orders() {
    let items = parse_checklist_items("- [ ] alpha\nplain line\n- [x] beta");
    assert_eq!(items.len(), 2);
    assert_eq!(items[0].text, "alpha");
    assert_eq!(items[0].order, 0);
    assert_eq!(items[1].text, "beta");
    assert_eq!(items[1].order, 1);
    assert_eq!(items[0].id.len(), 36);
}

#[test]
fn test_recover_checklist_without_bullets() {
    let items = recover_checklist_from_content("[ ] a\n  [x] b\nnot an item");
    assert_eq!(items.len(), 2);
    assert_eq!(items[0].text, "a");
    assert!(!items[0].is_checked);
    assert_eq!(items[1].text, "b");
    assert!(items[1].is_checked);
}

#[test]
fn test_generate_checklist_fallback_free() {
    let items = vec![
        ChecklistItem { id: "1".to_string(), text: "B".to_string(), is_checked: true, order: 1 },
        ChecklistItem { id: "2".to_string(), text: "A".to_string(), is_checked: false, order: 0 },
    ];
    assert_eq!(generate_checklist_fallback(&items), "[ ] A\n[x] B");
}

fn sample_note() -> Note {
    Note {
        id: "0f8fad5b-d9cb-469f-a165-70867728950e".to_string(),
        title: "Shopping".to_string(),
        content: String::new(),
        created_at: 1770200729000,
        updated_at: 1770200729000,
        device_id: "tauri-abc".to_string(),
        sync_status: simple_notes::models::SyncStatus::Synced,
        note_type: NoteType::Checklist,
        checklist_items: Some(vec![
            ChecklistItem {
                id: "a".to_string(),
                text: "Buy milk".to_string(),
                is_checked: false,
                order: 0,
            },
            ChecklistItem {
                id: "b".to_string(),
                text: "Eggs".to_string(),
                is_checked: true,
                order: 1,
            },
        ]),
        checklist_sort_option: None,
    }
}

#[test]
fn test_generate_markdown_checklist_body() {
    let md = generate_markdown(&sample_note());
    assert!(md.starts_with("---\nid: 0f8fad5b-d9cb-469f-a165-70867728950e\n"));
    assert!(md.contains("\ntype: checklist"));
    assert!(md.contains("\n---\n\n# Shopping\n\n"));
    assert!(md.ends_with("\n\n- [ ] Buy milk\n- [x] Eggs\n"));
}

#[test]
fn test_generate_markdown_sorts_by_order() {
    let mut note = sample_note();
    if let Some(items) = &mut note.checklist_items {
        items[0].order = 5;
    }
    let md = generate_markdown(&note);
    assert!(md.ends_with("- [x] Eggs\n- [ ] Buy milk\n"));
}

#[test]
fn test_parse_markdown_roundtrip_checklist_order() {
    let mut note = sample_note();
    if let Some(items) = &mut note.checklist_items {
        items[0].order = 7;
    }
    let md = generate_markdown(&note);
    let parsed = parse_markdown(&md, None).unwrap();
    assert_eq!(parsed.note_type, NoteType::Checklist);
    let items = parsed.checklist_items.unwrap();
    assert_eq!(items.len(), 2);
    assert_eq!(items[0].text, "Eggs");
    assert!(items[0].is_checked);
    assert_eq!(items[0].order, 0);
    assert_eq!(items[1].text, "Buy milk");
    assert!(!items[1].is_checked);
    assert_eq!(items[1].order, 1);
}

#[test]
fn test_parse_markdown_empty_checklist_roundtrip() {
    let note = Note::new_checklist("Todo".to_string(), "dev".to_string());
    let md = generate_markdown(&note);
    let parsed = parse_markdown(&md, None).unwrap();
    assert_eq!(parsed.note_type, NoteType::Checklist);
    assert_eq!(parsed.checklist_items.unwrap().len(), 0);
    assert_eq!(parsed.checklist_sort_option.as_deref(), Some("UNCHECKED_FIRST"));
    assert_eq!(parsed.title, "Todo");
    assert_eq!(parsed.id, note.id);
}

#[test]
fn test_parse_markdown_text_note_roundtrip() {
    let mut note = sample_note();
    note.note_type = NoteType::Text;
    note.checklist_items = None;
    note.content = "line one\nline two".to_string();
    let md = generate_markdown(&note);
    let parsed = parse_markdown(&md, None).unwrap();
    assert_eq!(parsed.note_type, NoteType::Text);
    assert_eq!(parsed.content, "line one\nline two");
    assert!(parsed.checklist_items.is_none());
    assert_eq!(parsed.created_at, note.created_at);
    assert_eq!(parsed.updated_at, note.updated_at);
    assert_eq!(parsed.device_id, "tauri-abc");
}

#[test]
fn test_parse_markdown_server_mtime_precedence() {
    let doc = "---\nid: abc\ncreated: 2026-02-04T10:25:29Z\nupdated: 2026-02-04T10:25:29Z\ndevice: d\ntype: text\n---\n\n# T\n\nbody";
    let frontmatter_value = 1770200729000i64;
    let parsed = parse_markdown(doc, Some(frontmatter_value + 1)).unwrap();
    assert_eq!(parsed.updated_at, frontmatter_value + 1);
    let parsed = parse_markdown(doc, Some(frontmatter_value)).unwrap();
    assert_eq!(parsed.updated_at, frontmatter_value);
    let parsed = parse_markdown(doc, Some(frontmatter_value - 5)).unwrap();
    assert_eq!(parsed.updated_at, frontmatter_value);
}

#[test]
fn test_parse_markdown_degrades_gracefully() {
    let doc = "---\nnothing: here\n---\n\njust text";
    let parsed = parse_markdown(doc, None).unwrap();
    assert_eq!(parsed.note_type, NoteType::Text);
    assert_eq!(parsed.title, "Untitled");
    assert_eq!(parsed.id.len(), 36);
    assert_eq!(parsed.device_id, "unknown");
    assert_eq!(parsed.content, "just text");
}

#[test]
fn test_parse_markdown_missing_frontmatter_fails() {
    match parse_markdown("# Just a heading\n\nbody", None) {
        Err(AppError::ParseError(d)) => assert_eq!(d, "No frontmatter found"),
        other => panic!("expected ParseError, got {:?}", other),
    }
}

#[test]
fn test_parse_markdown_sort_option_recovered() {
    let doc = "---\nid: abc\ntype: checklist\nsort: alphabetical-asc\n---\n\n# T\n\n- [ ] a";
    let parsed = parse_markdown(doc, None).unwrap();
    assert_eq!(parsed.checklist_sort_option.as_deref(), Some("ALPHABETICAL_ASC"));
    assert_eq!(parsed.content, "[ ] a");
}

use simple_notes::error::AppError;
use simple_notes::models::{Note, NoteMetadata, NoteType, SyncStatus};
use simple_notes::webdav::{
    classify_listing, classify_probe, fetch_outcome, list_document_ids, sanitize_filename,
    save_json_outcome, summarize_notes, ProbeOutcome, WebDavClient,
};

#[test]
fn test_sanitize_filename() {
    assert_eq!(sanitize_filename("Normal Title"), "Normal Title");
    assert_eq!(sanitize_filename("With/Slash"), "With_Slash");
    assert_eq!(sanitize_filename("Test:Colon"), "Test_Colon");
    assert_eq!(sanitize_filename("Multi<>Special"), "Multi__Special");
    assert_eq!(sanitize_filename("  Trimmed  "), "Trimmed");
}

#[test]
fn test_sanitize_filename_all_special_chars() {
    assert_eq!(sanitize_filename("a/b:c*d?e\"f<g>h|i"), "a_b_c_d_e_f_g_h_i");
    assert_eq!(sanitize_filename("back\\slash"), "back_slash");
}

#[test]
fn test_client_config() {
    let client = WebDavClient::new("https://server.example/dav///", "user", "pass");
    assert_eq!(client.base_url, "https://server.example/dav");
    assert_eq!(client.auth_header, "Basic dXNlcjpwYXNz");
}

#[test]
fn test_client_urls() {
    let client = WebDavClient::new("http://h", "u", "p");
    assert_eq!(client.notes_dir_url(), "http://h/notes/");
    assert_eq!(client.notes_md_dir_url(), "http://h/notes-md/");
    assert_eq!(
        client.note_json_url("0f8fad5b-d9cb-469f-a165-70867728950e"),
        "http://h/notes/0f8fad5b-d9cb-469f-a165-70867728950e.json"
    );
    assert_eq!(client.note_md_url("My/Title"), "http://h/notes-md/My_Title.md");
}

#[test]
fn test_classify_probe_statuses() {
    assert!(matches!(classify_probe(200), ProbeOutcome::Connected));
    assert!(matches!(classify_probe(207), ProbeOutcome::Connected));
    assert!(matches!(classify_probe(401), ProbeOutcome::BadCredentials));
    assert!(matches!(classify_probe(403), ProbeOutcome::BadCredentials));
    assert!(matches!(classify_probe(404), ProbeOutcome::NeedsBootstrap));
    match classify_probe(500) {
        ProbeOutcome::Failed(AppError::WebDav(m)) => {
            assert_eq!(m, "Connection test failed: 500")
        },
        other => panic!("expected failure, got {:?}", other),
    }
}

#[test]
fn test_probe_bootstrap_flow() {
    // A 404 on the first probe asks for the directory bootstrap; the MKCOL
    // targets are the two storage roots, and a later probe succeeds.
    let client = WebDavClient::new("http://h", "u", "p");
    assert!(matches!(classify_probe(404), ProbeOutcome::NeedsBootstrap));
    assert_eq!(client.notes_dir_url(), "http://h/notes/");
    assert_eq!(client.notes_md_dir_url(), "http://h/notes-md/");
    assert!(matches!(classify_probe(207), ProbeOutcome::Connected));
}

#[test]
fn test_classify_listing() {
    assert!(classify_listing(200).is_ok());
    assert!(classify_listing(207).is_ok());
    match classify_listing(500) {
        Err(AppError::WebDav(m)) => assert_eq!(m, "PROPFIND failed: 500"),
        other => panic!("expected error, got {:?}", other),
    }
}

#[test]
fn test_list_document_ids_dedup_across_encodings() {
    // The same identifier once raw and once percent-encoded must come back
    // exactly once, lower-cased.
    let body = "<href>ABCDEF01-2345-6789-ABCD-EF0123456789.json</href>\
                <href>%41BCDEF01-2345-6789-ABCD-EF0123456789%2Ejson</href>";
    let ids = list_document_ids(body);
    assert_eq!(ids, vec!["abcdef01-2345-6789-abcd-ef0123456789".to_string()]);
}

#[test]
fn test_list_document_ids_order_and_case() {
    let body = "b0000000-0000-0000-0000-000000000002.json \
                a0000000-0000-0000-0000-000000000001.json \
                B0000000-0000-0000-0000-000000000002.json";
    let ids = list_document_ids(body);
    assert_eq!(
        ids,
        vec![
            "b0000000-0000-0000-0000-000000000002".to_string(),
            "a0000000-0000-0000-0000-000000000001".to_string(),
        ]
    );
}

#[test]
fn test_list_document_ids_found_only_after_decoding() {
    // The identifier appears only percent-encoded, suffix included: without
    // real decoding the scan would find nothing.
    let body = "%41BCDEF01-2345-6789-ABCD-EF0123456789%2Ejson";
    let ids = list_document_ids(body);
    assert_eq!(ids, vec!["abcdef01-2345-6789-abcd-ef0123456789".to_string()]);
}

#[test]
fn test_list_document_ids_ignores_non_matches() {
    let ids = list_document_ids("nothing here, not-a-uuid.json, 1234.json");
    assert!(ids.is_empty());
}

fn plain_note(id: &str, updated_at: i64) -> Note {
    Note {
        id: id.to_string(),
        title: format!("note {}", id),
        content: String::new(),
        created_at: 1,
        updated_at,
        device_id: "d".to_string(),
        sync_status: SyncStatus::Synced,
        note_type: NoteType::Text,
        checklist_items: None,
        checklist_sort_option: None,
    }
}

#[test]
fn test_fetch_outcome_cases() {
    let mut stale = plain_note("n1", 5);
    stale.checklist_items = Some(vec![simple_notes::models::ChecklistItem {
        id: "i".to_string(),
        text: "t".to_string(),
        is_checked: false,
        order: 0,
    }]);
    // A parsed document is normalized: non-empty items force the checklist
    // type.
    let fixed = fetch_outcome(200, "n1", Some(stale), "").unwrap();
    assert_eq!(fixed.note_type, NoteType::Checklist);

    match fetch_outcome(404, "abc123", None, "") {
        Err(AppError::NoteNotFound(id)) => assert_eq!(id, "abc123"),
        other => panic!("expected NoteNotFound, got {:?}", other),
    }
    match fetch_outcome(200, "abc123", None, "bad body") {
        Err(AppError::ParseError(d)) => assert_eq!(d, "bad body"),
        other => panic!("expected ParseError, got {:?}", other),
    }
    match fetch_outcome(500, "abc123", None, "") {
        Err(AppError::WebDav(m)) => assert_eq!(m, "GET failed: 500"),
        other => panic!("expected WebDav error, got {:?}", other),
    }
}

#[test]
fn test_save_json_outcome() {
    assert!(save_json_outcome(200, "").is_ok());
    assert!(save_json_outcome(201, "").is_ok());
    match save_json_outcome(507, "disk full") {
        Err(AppError::WebDav(m)) => assert_eq!(m, "PUT JSON failed: 507 - disk full"),
        other => panic!("expected WebDav error, got {:?}", other),
    }
}

#[test]
fn test_summarize_notes_sorts_by_recency() {
    let notes = vec![
        plain_note("a", 10),
        plain_note("b", 30),
        plain_note("c", 20),
        plain_note("d", 30),
    ];
    let metas: Vec<NoteMetadata> = summarize_notes(&notes);
    let ids: Vec<&str> = metas.iter().map(|m| m.id.as_str()).collect();
    // Most recent first; the two ties keep their fetch order.
    assert_eq!(ids, vec!["b", "d", "c", "a"]);
}

#[test]
fn test_mirror_document() {
    let client = WebDavClient::new("http://h", "u", "p");
    let note = plain_note("x", 2);
    let (url, text) = client.mirror_document(&note);
    assert_eq!(url, "http://h/notes-md/note x.md");
    assert!(text.starts_with("---\nid: x\n"));
}

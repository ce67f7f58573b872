use chat_history::{
    contains_folded, export_conversation, export_conversation_at, extract_preview,
    format_conversation_as_markdown, format_conversation_as_text, format_summary_row,
    preview_window, truncate_path, truncate_string, ConversationSummary, Database, DecodeError,
    ExportError, ExportFormat, RestoreError, SessionRecord, Turn,
};

fn rec(id: &str, prompts: &[Option<&str>], transcript: &[&str]) -> SessionRecord {
    SessionRecord {
        id: id.to_string(),
        history: prompts.iter().map(|p| Turn { prompt: p.map(|s| s.to_string()) }).collect(),
        transcript: transcript.iter().map(|s| s.to_string()).collect(),
    }
}

#[test]
fn truncation_widths_hold() {
    for w in 0..12usize {
        let fit = truncate_string("abc", w);
        if w >= 3 {
            assert_eq!(fit.chars().count(), w);
        } else {
            assert_eq!(fit, "...");
        }
        let cut = truncate_string("a fairly long piece of text", w);
        if w >= 3 {
            assert!(cut.chars().count() <= w);
            assert!(cut.ends_with("..."));
        }
    }
    assert_eq!(truncate_string("", 0), "");
    assert_eq!(truncate_string("abc", 3), "abc");
}

#[test]
fn truncation_counts_characters() {
    assert_eq!(truncate_string("héllo wörld", 8), "héllo...");
    assert_eq!(truncate_string("é", 3), "é  ");
}

#[test]
fn path_home_only_as_prefix() {
    assert_eq!(truncate_path("/srv/home/testuser", 20, Some("/home/testuser")), "/srv/home/testuser  ");
    assert_eq!(truncate_path("/very/long/path/that/exceeds/the/limit", 20, None), ".../the/limit");
    assert_eq!(truncate_path("/abcdefghijkl", 6, None), "...jkl");
    assert_eq!(truncate_path("/abcdefghijkl", 2, None), "...");
}

#[test]
fn preview_placeholders_and_cap() {
    assert_eq!(extract_preview(&rec("a", &[], &[])), "Empty conversation");
    assert_eq!(extract_preview(&rec("a", &[None, Some("x")], &[])), "Tool use conversation");
    assert_eq!(extract_preview(&rec("a", &[Some("  two\nlines  ")], &[])), "two lines");
    let long = format!("  {}\nmore", "x".repeat(60));
    assert_eq!(extract_preview(&rec("a", &[Some(&long)], &[])), format!("{}...", "x".repeat(47)));
}

#[test]
fn folded_matching() {
    assert!(contains_folded("the lazy dog", "lazy"));
    assert!(!contains_folded("the lazy dog", "Lazy"));
    assert!(contains_folded("abc", ""));
    assert_eq!(preview_window("Hello World", "hello world", "world"), Some("...Hello World...".to_string()));
    assert_eq!(preview_window("Hello", "hello", "xyz"), None);
    let entry = format!("{}needle{}", "a".repeat(30), "b".repeat(30));
    assert_eq!(
        preview_window(&entry, &entry, "needle"),
        Some(format!("...{}needle{}...", "a".repeat(20), "b".repeat(20)))
    );
}

#[test]
fn list_is_descending_and_filtered() {
    let mut db = Database::new();
    db.set_conversation_by_path("/b", &rec("2", &[Some("docker setup")], &["> docker setup"]));
    db.set_conversation_by_path("/c", &rec("3", &[Some("rust")], &["> rust"]));
    db.set_conversation_by_path("/a", &rec("1", &[Some("more docker")], &["> more Docker"]));
    db.set_entry("/d", None);
    let all = db.list_conversations(10, None, None);
    let paths: Vec<&str> = all.iter().map(|s| s.path.as_str()).collect();
    assert_eq!(paths, vec!["/c", "/b", "/a"]);
    assert_eq!(all[0].preview, "rust");
    assert_eq!(all[0].message_count, 1);
    assert_eq!(all[0].created_at, all[0].updated_at);
    let docker = db.list_conversations(10, None, Some("DOCKER"));
    let paths: Vec<&str> = docker.iter().map(|s| s.path.as_str()).collect();
    assert_eq!(paths, vec!["/b", "/a"]);
    let one = db.list_conversations_at(1, None, None, 42);
    assert_eq!(one.len(), 1);
    assert_eq!(one[0].path, "/c");
    assert_eq!(one[0].created_at, 42);
}

#[test]
fn search_takes_first_hits_then_sorts_ascending() {
    let mut db = Database::new();
    db.set_conversation_by_path("/z", &rec("z", &[Some("q")], &["talk about Alpha here"]));
    db.set_entry("/broken", None);
    db.set_conversation_by_path("/m", &rec("m", &[Some("nothing")], &["nothing"]));
    db.set_conversation_by_path("/a", &rec("a", &[Some("alpha")], &["x"]));
    db.set_conversation_by_path("/k", &rec("k", &[Some("alpha again")], &["alpha"]));
    let found = db.search_conversations_at("ALPHA", 10, 7);
    let paths: Vec<&str> = found.iter().map(|s| s.path.as_str()).collect();
    assert_eq!(paths, vec!["/a", "/k", "/z"]);
    assert_eq!(found[2].preview, "...talk about Alpha here...");
    assert_eq!(found[0].preview, "...alpha...");
    let first_two = db.search_conversations_at("alpha", 2, 7);
    let paths: Vec<&str> = first_two.iter().map(|s| s.path.as_str()).collect();
    assert_eq!(paths, vec!["/a", "/z"]);
    assert!(db.search_conversations_at("alpha", 0, 7).is_empty());
}

#[test]
fn lookup_by_path_reports_malformed() {
    let mut db = Database::new();
    db.set_entry("/bad", None);
    db.set_conversation_by_path("/good", &rec("g", &[], &[]));
    assert_eq!(db.get_conversation_by_path("/bad").err(), Some(DecodeError::Malformed));
    assert_eq!(db.get_conversation_by_path("/none").unwrap().map(|r| r.id), None);
    assert_eq!(db.get_conversation_by_path("/good").unwrap().map(|r| r.id), Some("g".to_string()));
    db.set_conversation_by_path("/good", &rec("h", &[], &[]));
    assert_eq!(db.entries().len(), 2);
    assert_eq!(db.get_conversation_by_path("/good").unwrap().map(|r| r.id), Some("h".to_string()));
}

#[test]
fn restore_backs_up_existing_entry() {
    let mut db = Database::new();
    db.set_conversation_by_path("/src", &rec("abcdef", &[Some("p")], &["> p"]));
    db.set_conversation_by_path("/here", &rec("old", &[], &[]));
    let out = db.restore_conversation_at("abc", "/here", "20240102_030405").unwrap();
    assert_eq!(out.original_path, "/src");
    assert_eq!(out.record.id, "abcdef");
    assert_eq!(out.backup_key.as_deref(), Some("/here.backup.20240102_030405"));
    assert_eq!(db.entries().len(), 3);
    assert_eq!(db.get_conversation_by_path("/here").unwrap().unwrap().id, "abcdef");
    assert_eq!(
        db.get_conversation_by_path("/here.backup.20240102_030405").unwrap().unwrap().id,
        "old"
    );
}

#[test]
fn restore_without_existing_and_failures() {
    let mut db = Database::new();
    db.set_conversation_by_path("/src", &rec("abcdef", &[], &[]));
    let out = db.restore_conversation_at("abcdef", "/new", "s").unwrap();
    assert_eq!(out.backup_key, None);
    assert_eq!(db.entries().len(), 2);
    assert_eq!(db.restore_conversation_at("zzz", "/new", "s").err(), Some(RestoreError::NotFound));
    db.set_entry("/bad", None);
    assert_eq!(db.restore_conversation_at("abc", "/bad", "s").err(), Some(RestoreError::Malformed));
    assert_eq!(db.entries().len(), 3);
    let out = db.restore_conversation("abc", "/new").unwrap();
    assert!(out.backup_key.unwrap().starts_with("/new.backup."));
}

#[test]
fn markdown_export_exact() {
    let r = rec("id-1", &[Some("hi"), Some("more")], &[">hi", "hello", ">>more", "ok"]);
    let md = format_conversation_as_markdown(&r, "/p", "2024-01-02 03:04:05 UTC");
    let expected = "# Conversation Export\n\n**Conversation ID:** `id-1`\n**Original Directory:** `/p`\n**Messages:** 2\n**Exported:** 2024-01-02 03:04:05 UTC\n\n---\n\n## User Message 1\n\n```\nhi\n```\n\n## Assistant Response 1\n\nhello\n\n## User Message 2\n\n```\nmore\n```\n\n## Assistant Response 2\n\nok\n\n";
    assert_eq!(md, expected);
}

#[test]
fn text_export_exact() {
    let r = rec("id-1", &[Some("hi")], &["> hi", "hello"]);
    let txt = format_conversation_as_text(&r, "/p", "T");
    let rule80 = "\u{2500}".repeat(80);
    let rule40 = "\u{2500}".repeat(40);
    let expected = format!(
        "CONVERSATION EXPORT\n==================\n\nConversation ID: id-1\nOriginal Directory: /p\nMessages: 1\nExported: T\n\n{rule80}\n\nUSER MESSAGE 1:\n hi\n\n{rule40}\n\nASSISTANT RESPONSE 1:\nhello\n\n{rule40}\n\n"
    );
    assert_eq!(txt, expected);
}

#[test]
fn export_decisions() {
    let mut db = Database::new();
    db.set_conversation_by_path("/p", &rec("abc", &[Some("x")], &["> x"]));
    assert_eq!(
        export_conversation_at(&db, "zz", ExportFormat::Text, false, false, "T").err(),
        Some(ExportError::NotFound)
    );
    assert_eq!(
        export_conversation_at(&db, "ab", ExportFormat::Text, true, false, "T").err(),
        Some(ExportError::DestinationExists)
    );
    let plan = export_conversation_at(&db, "ab", ExportFormat::Json, true, true, "T").unwrap();
    assert_eq!(plan.original_path, "/p");
    assert_eq!(plan.record.id, "abc");
    assert!(plan.rendered.is_none());
    let plan = export_conversation_at(&db, "ab", ExportFormat::Markdown, false, false, "T").unwrap();
    assert!(plan.rendered.unwrap().contains("## User Message 1"));
    let plan = export_conversation(&db, "abc", ExportFormat::Text, false, false).unwrap();
    assert!(plan.rendered.unwrap().contains("Exported: 2"));
}

#[test]
fn table_row_layout() {
    let s = ConversationSummary {
        id: "f18c31da-422d".to_string(),
        path: "/home/u/proj".to_string(),
        created_at: 0,
        updated_at: 0,
        preview: "hello".to_string(),
        message_count: 1,
    };
    let row = format_summary_row(&s, "2024-01-02 03:04:05", Some("/home/u"));
    let expected = format!(
        "\u{2502} f18c31da \u{2502} 2024-01-02 03:04:05 \u{2502} {:<48} \u{2502} {:<35} \u{2502}",
        "~/proj", "hello"
    );
    assert_eq!(row, expected);
}

#[test]
fn backups_never_overwrite() {
    let mut db = Database::new();
    let first = rec("first", &[], &[]);
    db.set_conversation_by_path("/p", &first);
    let key = db.backup_conversation_at("/p", &first, "20240102_030405");
    assert_eq!(key.as_deref(), Some("/p.backup.20240102_030405"));
    let again = db.backup_conversation_at("/p", &rec("second", &[], &[]), "20240102_030405");
    assert_eq!(again, None);
    assert_eq!(db.entries().len(), 2);
    assert_eq!(
        db.get_conversation_by_path("/p.backup.20240102_030405").unwrap().unwrap().id,
        "first"
    );
}

#[test]
fn restore_refuses_a_taken_backup_key() {
    let mut db = Database::new();
    db.set_conversation_by_path("/src", &rec("abcdef", &[], &[]));
    db.set_conversation_by_path("/here", &rec("old", &[], &[]));
    db.set_conversation_by_path("/here.backup.S", &rec("older", &[], &[]));
    assert_eq!(
        db.restore_conversation_at("abc", "/here", "S").err(),
        Some(RestoreError::BackupExists)
    );
    assert_eq!(db.entries().len(), 3);
    assert_eq!(db.get_conversation_by_path("/here").unwrap().unwrap().id, "old");
    assert_eq!(db.get_conversation_by_path("/here.backup.S").unwrap().unwrap().id, "older");
}

#[test]
fn export_checks_destination_before_anything_else() {
    let mut db = Database::new();
    db.set_conversation_by_path("/p", &rec("abc", &[], &[]));
    assert_eq!(
        export_conversation(&db, "abc", ExportFormat::Markdown, true, false).err(),
        Some(ExportError::DestinationExists)
    );
    assert_eq!(
        export_conversation(&db, "x", ExportFormat::Json, true, false).err(),
        Some(ExportError::NotFound)
    );
    let plan = export_conversation(&db, "abc", ExportFormat::Json, true, true).unwrap();
    assert!(plan.rendered.is_none());
    assert_eq!(plan.record.id, "abc");
}

#[test]
fn preview_trims_unicode_white_space() {
    let r = rec("a", &[Some("\u{3000}\t hi there\u{a0}\u{2028}")], &[]);
    assert_eq!(extract_preview(&r), "hi there");
    let r = rec("a", &[Some(" \u{85} ")], &[]);
    assert_eq!(extract_preview(&r), "");
}

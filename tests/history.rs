use chat_history::{
    conversation_contains_text, extract_search_preview, truncate_path, truncate_string,
    ConversationSummary, Database, ExportFormat, HistoryArgs, HistoryCommands, SessionRecord, Turn,
};

fn record(id: &str, prompts: &[Option<&str>], transcript: &[&str]) -> SessionRecord {
    SessionRecord {
        id: id.to_string(),
        history: prompts
            .iter()
            .map(|p| Turn { prompt: p.map(|s| s.to_string()) })
            .collect(),
        transcript: transcript.iter().map(|s| s.to_string()).collect(),
    }
}

fn store_with(entries: &[(&str, SessionRecord)]) -> Database {
    let mut db = Database::new();
    for (path, rec) in entries {
        db.set_conversation_by_path(path, rec);
    }
    db
}

#[test]
fn test_truncate_string() {
    assert_eq!(truncate_string("short", 10), "short     ");
    assert_eq!(truncate_string("this is a very long string", 10), "this is...");
    assert_eq!(truncate_string("exactly10!", 10), "exactly10!");
}

#[test]
fn test_truncate_path() {
    assert_eq!(
        truncate_path("/home/testuser/project", 20, Some("/home/testuser")),
        "~/project           "
    );

    let long_path = "/very/long/path/that/exceeds/the/limit";
    let result = truncate_path(long_path, 20, Some("/home/testuser"));
    assert!(result.len() <= 20);
    assert!(result.starts_with("..."));
    assert!(result.contains("limit"));

    let result = truncate_path("/some/path", 20, None);
    assert_eq!(result, "/some/path          ");
}

#[test]
fn test_list_conversations_empty_database() {
    let db = Database::new();
    let conversations = db.list_conversations(10, None, None);
    assert!(conversations.is_empty());
}

#[test]
fn test_partial_id_matching() {
    let full_id = "f18c31da-422d-43b9-b7b1-bb01fb7c772b";
    let db = store_with(&[
        ("/work/other", record("0a1b2c3d-0000", &[Some("hi")], &["> hi"])),
        ("/work/main", record(full_id, &[Some("hello")], &["> hello"])),
    ]);

    for fragment in ["f18c31da", "f18c", "f", full_id] {
        let (path, rec) = db.get_conversation_by_id(fragment).expect("resolves");
        assert_eq!(path, "/work/main");
        assert_eq!(rec.id, full_id);
    }
    assert!(db.get_conversation_by_id("g").is_none());
}

#[test]
fn test_history_commands_equality() {
    let list1 = HistoryCommands::List { limit: 10, path: None, contains: None };
    let list2 = HistoryCommands::List { limit: 10, path: None, contains: None };
    let list3 = HistoryCommands::List { limit: 20, path: None, contains: None };

    assert_eq!(list1, list2);
    assert_ne!(list1, list3);

    let show1 = HistoryCommands::Show { id: "abc123".to_string() };
    let show2 = HistoryCommands::Show { id: "abc123".to_string() };
    let show3 = HistoryCommands::Show { id: "def456".to_string() };

    assert_eq!(show1, show2);
    assert_ne!(show1, show3);
    assert_ne!(list1, show1);

    let restore1 = HistoryCommands::Restore { id: "abc123".to_string() };
    let restore2 = HistoryCommands::Restore { id: "abc123".to_string() };
    let restore3 = HistoryCommands::Restore { id: "def456".to_string() };

    assert_eq!(restore1, restore2);
    assert_ne!(restore1, restore3);
    assert_ne!(restore1, show1);
    assert_ne!(restore1, list1);

    let search1 = HistoryCommands::Search { query: "test".to_string(), limit: 10 };
    let search2 = HistoryCommands::Search { query: "test".to_string(), limit: 10 };
    let search3 = HistoryCommands::Search { query: "other".to_string(), limit: 10 };

    assert_eq!(search1, search2);
    assert_ne!(search1, search3);
    assert_ne!(search1, list1);
    assert_ne!(search1, show1);
    assert_ne!(search1, restore1);

    let export1 = HistoryCommands::Export {
        id: "abc123".to_string(),
        output: "test.json".to_string(),
        format: ExportFormat::Json,
        force: false,
    };
    let export2 = HistoryCommands::Export {
        id: "abc123".to_string(),
        output: "test.json".to_string(),
        format: ExportFormat::Json,
        force: false,
    };
    let export3 = HistoryCommands::Export {
        id: "abc123".to_string(),
        output: "test.md".to_string(),
        format: ExportFormat::Markdown,
        force: false,
    };

    assert_eq!(export1, export2);
    assert_ne!(export1, export3);
    assert_ne!(export1, list1);
    assert_ne!(export1, show1);
    assert_ne!(export1, restore1);
    assert_ne!(export1, search1);
}

#[test]
fn test_history_args_equality() {
    let args1 = HistoryArgs {
        command: HistoryCommands::List { limit: 10, path: None, contains: None },
    };
    let args2 = HistoryArgs {
        command: HistoryCommands::List { limit: 10, path: None, contains: None },
    };

    assert_eq!(args1, args2);

    let restore_args1 = HistoryArgs { command: HistoryCommands::Restore { id: "test123".to_string() } };
    let restore_args2 = HistoryArgs { command: HistoryCommands::Restore { id: "test123".to_string() } };
    let restore_args3 = HistoryArgs { command: HistoryCommands::Restore { id: "different".to_string() } };

    assert_eq!(restore_args1, restore_args2);
    assert_ne!(restore_args1, restore_args3);
    assert_ne!(args1, restore_args1);

    let search_args1 = HistoryArgs {
        command: HistoryCommands::Search { query: "test".to_string(), limit: 10 },
    };
    let search_args2 = HistoryArgs {
        command: HistoryCommands::Search { query: "test".to_string(), limit: 10 },
    };

    assert_eq!(search_args1, search_args2);
    assert_ne!(args1, search_args1);

    let export_args1 = HistoryArgs {
        command: HistoryCommands::Export {
            id: "test123".to_string(),
            output: "test.json".to_string(),
            format: ExportFormat::Json,
            force: false,
        },
    };
    let export_args2 = HistoryArgs {
        command: HistoryCommands::Export {
            id: "test123".to_string(),
            output: "test.json".to_string(),
            format: ExportFormat::Json,
            force: false,
        },
    };

    assert_eq!(export_args1, export_args2);
    assert_ne!(args1, export_args1);
}

#[test]
fn test_truncate_string_edge_cases() {
    assert_eq!(truncate_string("", 10), "          ");
    assert_eq!(truncate_string("1234567890", 10), "1234567890");
    assert_eq!(truncate_string("12345678901", 10), "1234567...");
    assert_eq!(truncate_string("hello", 3), "...");
    assert_eq!(truncate_string("hello", 0), "...");
}

#[test]
fn test_truncate_path_edge_cases() {
    assert_eq!(truncate_path("", 10, None), "          ");
    assert_eq!(truncate_path("/home/user", 10, Some("/home/user")), "~         ");
    assert_eq!(truncate_path("/home/user/", 10, Some("/home/user")), "~/        ");
    let result = truncate_path("/very/long/path", 5, Some("/home/user"));
    assert_eq!(result, "...th");
}

#[test]
fn test_database_integration_list_conversations() {
    let db = Database::new();
    let conversations = db.list_conversations(10, None, None);
    assert!(conversations.is_empty());
}

#[test]
fn test_database_integration_get_conversation_by_id() {
    let db = Database::new();
    assert!(db.get_conversation_by_id("nonexistent").is_none());
    assert!(db.get_conversation_by_id("abc123").is_none());
}

#[test]
fn test_history_args_debug() {
    let args = HistoryArgs {
        command: HistoryCommands::List { limit: 5, path: Some("/test".to_string()), contains: None },
    };

    let debug_str = format!("{:?}", args);
    assert!(debug_str.contains("List"));
    assert!(debug_str.contains("limit: 5"));
    assert!(debug_str.contains("/test"));

    let restore_args = HistoryArgs { command: HistoryCommands::Restore { id: "test123".to_string() } };

    let debug_str = format!("{:?}", restore_args);
    assert!(debug_str.contains("Restore"));
    assert!(debug_str.contains("test123"));

    let search_args = HistoryArgs {
        command: HistoryCommands::Search { query: "gitignore".to_string(), limit: 5 },
    };

    let debug_str = format!("{:?}", search_args);
    assert!(debug_str.contains("Search"));
    assert!(debug_str.contains("gitignore"));
    assert!(debug_str.contains("limit: 5"));

    let export_args = HistoryArgs {
        command: HistoryCommands::Export {
            id: "test123".to_string(),
            output: "conv.json".to_string(),
            format: ExportFormat::Markdown,
            force: true,
        },
    };

    let debug_str = format!("{:?}", export_args);
    assert!(debug_str.contains("Export"));
    assert!(debug_str.contains("test123"));
    assert!(debug_str.contains("conv.json"));
    assert!(debug_str.contains("Markdown"));
    assert!(debug_str.contains("force: true"));
}

#[test]
fn test_conversation_summary_debug() {
    let summary = ConversationSummary {
        id: "test-id".to_string(),
        path: "/test/path".to_string(),
        created_at: 1_700_000_000,
        updated_at: 1_700_000_000,
        preview: "Test preview".to_string(),
        message_count: 5,
    };

    let debug_str = format!("{:?}", summary);
    assert!(debug_str.contains("test-id"));
    assert!(debug_str.contains("/test/path"));
    assert!(debug_str.contains("Test preview"));
}

#[test]
fn test_database_error_handling() {
    let db = Database::new();
    assert!(db.list_conversations(10, None, None).is_empty());
    assert!(db.get_conversation_by_id("").is_none());
    assert!(db.search_conversations("test", 10).is_empty());
}

#[test]
fn test_backup_conversation() {
    let mut db = Database::new();
    let rec = record("abc", &[Some("hi")], &["> hi"]);
    db.set_conversation_by_path("/work/a", &rec);
    let key = db.backup_conversation("/work/a", &rec).expect("the clock gives a time");
    assert!(key.starts_with("/work/a.backup."));
    assert_eq!(key.len(), "/work/a.backup.".len() + 15);
    assert_eq!(db.entries().len(), 2);
    assert_eq!(db.get_conversation_by_path("/work/a").unwrap().unwrap().id, "abc");
    assert_eq!(db.get_conversation_by_path(&key).unwrap().unwrap().id, "abc");
}

#[test]
fn test_path_filtering_logic() {
    let test_paths = vec![
        "/home/user/project1",
        "/home/user/project2",
        "/workspace/project3",
        "/tmp/project4",
    ];
    let entries: Vec<(&str, SessionRecord)> = test_paths
        .iter()
        .enumerate()
        .map(|(i, p)| (*p, record(&format!("id{}", i), &[Some("q")], &["> q"])))
        .collect();
    let db = store_with(&entries);

    assert_eq!(db.list_conversations(10, Some("/home"), None).len(), 2);
    assert_eq!(db.list_conversations(10, Some("project"), None).len(), 4);
    assert_eq!(db.list_conversations(10, Some("/nonexistent"), None).len(), 0);
}

fn ten_entries() -> Database {
    let mut db = Database::new();
    for k in 1..=10u8 {
        let path = format!("/work/{}", (b'z' - k) as char);
        db.set_conversation_by_path(&path, &record(&k.to_string(), &[Some("q")], &["> q"]));
    }
    db
}

#[test]
fn test_limit_logic() {
    let db = ten_entries();

    let limited = db.list_conversations(5, None, None);
    assert_eq!(limited.len(), 5);
    assert_eq!(limited[0].id, "1");
    assert_eq!(limited[4].id, "5");

    let limited = db.list_conversations(20, None, None);
    assert_eq!(limited.len(), 10);

    let limited = db.list_conversations(0, None, None);
    assert_eq!(limited.len(), 0);
}

#[test]
fn test_conversation_contains_text() {
    let rec = record(
        "abc",
        &[Some("Please update the GITIGNORE"), None],
        &["> hello there", "Sure, here is the Plan"],
    );
    assert!(conversation_contains_text(&rec, "plan"));
    assert!(conversation_contains_text(&rec, "HELLO"));
    assert!(conversation_contains_text(&rec, "gitignore"));
    assert!(!conversation_contains_text(&rec, "docker"));
    assert!(!conversation_contains_text(&record("e", &[], &[]), "x"));
}

#[test]
fn test_extract_search_preview() {
    let rec = record(
        "abc",
        &[Some("  line one\nline two mentions Gitignore files here  ")],
        &["> hi", "The quick brown fox jumps over the lazy dog and keeps running far away"],
    );
    assert_eq!(
        extract_search_preview(&rec, "LAZY"),
        "...fox jumps over the lazy dog and keeps runni..."
    );
    assert_eq!(
        extract_search_preview(&rec, "gitignore"),
        "...e line two mentions Gitignore files here..."
    );
    assert_eq!(extract_search_preview(&rec, "absent"), "line one line two mentions Gitignore files here");
}

#[test]
fn test_export_format_enum() {
    assert_eq!(ExportFormat::Json, ExportFormat::Json);
    assert_ne!(ExportFormat::Json, ExportFormat::Markdown);
    assert_ne!(ExportFormat::Markdown, ExportFormat::Text);

    let debug_str = format!("{:?}", ExportFormat::Json);
    assert!(debug_str.contains("Json"));

    let debug_str = format!("{:?}", ExportFormat::Markdown);
    assert!(debug_str.contains("Markdown"));

    let debug_str = format!("{:?}", ExportFormat::Text);
    assert!(debug_str.contains("Text"));
}

use tpipe::history::History;

#[test]
fn test_up_down_navigation() {
    let mut history = History {
        entries: vec![
            "first".to_string(),
            "second".to_string(),
            "third".to_string(),
        ],
        index: None,
        draft: String::new(),
    };

    assert_eq!(history.up("current"), Some("third".to_string()));
    assert_eq!(history.index, Some(2));

    assert_eq!(history.up("current"), Some("second".to_string()));
    assert_eq!(history.index, Some(1));

    assert_eq!(history.up("current"), Some("first".to_string()));
    assert_eq!(history.index, Some(0));

    assert_eq!(history.up("current"), None);
    assert_eq!(history.index, Some(0));

    assert_eq!(history.down("current"), Some("second".to_string()));
    assert_eq!(history.index, Some(1));

    assert_eq!(history.down("current"), Some("third".to_string()));
    assert_eq!(history.index, Some(2));

    assert_eq!(history.down("current"), Some("current".to_string()));
    assert_eq!(history.index, None);
}

#[test]
fn test_draft_preserved() {
    let mut history = History {
        entries: vec!["old".to_string()],
        index: None,
        draft: String::new(),
    };

    assert_eq!(history.up("my draft"), Some("old".to_string()));
    assert_eq!(history.draft, "my draft");

    assert_eq!(history.down("old"), Some("my draft".to_string()));
}

#[test]
fn test_add_deduplicates() {
    let mut history = History {
        entries: vec!["first".to_string()],
        index: None,
        draft: String::new(),
    };

    history.add("first");
    assert_eq!(history.entries.len(), 1);

    history.add("second");
    assert_eq!(history.entries.len(), 2);

    history.add("second");
    assert_eq!(history.entries.len(), 2);
}

#[test]
fn test_add_ignores_empty() {
    let mut history = History {
        entries: vec![],
        index: None,
        draft: String::new(),
    };

    history.add("");
    history.add("  ");
    assert!(history.entries.is_empty());
}

#[test]
fn test_empty_history_navigation() {
    let mut history = History {
        entries: vec![],
        index: None,
        draft: String::new(),
    };

    assert_eq!(history.up("current"), None);
    assert_eq!(history.down("current"), None);
}

use shareboxx::chat::{make_message, message_from_clean, ChatLog, ChatMessage, LoadError, MessageCounter, RECENT_WINDOW};

fn bodies(window: &[ChatMessage]) -> Vec<String> {
    window.iter().map(|m| m.body.clone()).collect()
}

#[test]
fn empty_body_is_dropped() {
    let mut log = ChatLog::new();
    log.append("ann", "first", 1);
    let before = log.recent(RECENT_WINDOW);
    let window = log.post_message("bob", "", 2);
    assert_eq!(log.len(), 1);
    assert_eq!(window, before);
    // Markup only: nothing is left after sanitizing.
    assert!(!log.append("bob", "<script>alert(1)</script>", 3));
    assert_eq!(log.len(), 1);
}

#[test]
fn window_holds_last_five_of_seven() {
    let mut log = ChatLog::new();
    for i in 0..7u64 {
        assert!(log.append("ann", &format!("m{}", i), 100 + i));
    }
    let window = log.recent(5);
    assert_eq!(bodies(&window), vec!["m2", "m3", "m4", "m5", "m6"]);
    assert_eq!(window[0].timestamp, 102);
    assert_eq!(window[4].timestamp, 106);
}

#[test]
fn short_logs_are_shown_whole() {
    let mut log = ChatLog::new();
    assert!(log.recent(5).is_empty());
    log.append("ann", "one", 1);
    log.append("ann", "two", 2);
    assert_eq!(bodies(&log.recent(5)), vec!["one", "two"]);
    assert!(log.recent(0).is_empty());
}

#[test]
fn both_appenders_are_kept() {
    let mut log = ChatLog::new();
    log.append("ann", "hello", 1);
    log.append("bob", "hi there", 1);
    assert_eq!(log.len(), 2);
    let all = bodies(log.messages());
    assert!(all.contains(&"hello".to_string()));
    assert!(all.contains(&"hi there".to_string()));
}

#[test]
fn post_returns_the_recent_window() {
    let mut log = ChatLog::new();
    for i in 0..6u64 {
        log.append("ann", &format!("m{}", i), i);
    }
    let window = log.post_message("bob", "last", 9);
    assert_eq!(bodies(&window), vec!["m2", "m3", "m4", "m5", "last"]);
    assert_eq!(window[4].author, "bob");
}

#[test]
fn markup_is_removed_from_author_and_body() {
    let m = make_message("<b>ann</b>", "hi<script>alert(1)</script>", 5).unwrap();
    assert_eq!(m.author, "<b>ann</b>");
    assert_eq!(m.body, "hi");
    let m = make_message("<img src=x onerror=alert(1)>", "text", 5).unwrap();
    assert_eq!(m.author, "<img src=\"x\">");
}

#[test]
fn empty_author_becomes_anonymous() {
    assert_eq!(make_message("", "hello", 1).unwrap().author, "Anonymous");
    assert_eq!(make_message("<script>x</script>", "hello", 1).unwrap().author, "Anonymous");
}

#[test]
fn body_length_limits() {
    assert!(make_message("a", &"x".repeat(998), 1).is_some());
    assert!(make_message("a", &"x".repeat(999), 1).is_none());
    assert!(make_message("a", "x", 1).is_some());
    assert!(make_message("a", "", 1).is_none());
    // The limit counts characters, not bytes.
    assert!(make_message("a", &"é".repeat(998), 1).is_some());
}

#[test]
fn missing_or_empty_store_is_an_empty_log() {
    assert_eq!(ChatLog::load(None).unwrap().len(), 0);
    assert_eq!(ChatLog::load(Some("")).unwrap().len(), 0);
}

#[test]
fn malformed_store_is_refused() {
    assert_eq!(ChatLog::load(Some("not json")).err(), Some(LoadError::Malformed));
    assert_eq!(ChatLog::load(Some("{\"a\": 1}")).err(), Some(LoadError::Malformed));
}

#[test]
fn stored_form_is_a_list_of_triples() {
    let mut log = ChatLog::new();
    log.append("ann", "hello", 7);
    assert_eq!(log.to_json(), "[[\"ann\",\"hello\",7]]");
    assert_eq!(ChatLog::new().to_json(), "[]");
}

#[test]
fn stored_log_reads_back() {
    let log = ChatLog::load(Some("[[\"ann\",\"hello\",7],[\"bob\",\"yo\",9]]")).unwrap();
    assert_eq!(log.len(), 2);
    assert_eq!(
        log.messages()[1],
        ChatMessage { author: "bob".to_string(), body: "yo".to_string(), timestamp: 9 }
    );
    let again = ChatLog::load(Some(&log.to_json())).unwrap();
    assert_eq!(again.messages(), log.messages());
}

#[test]
fn counter_only_grows() {
    let mut c = MessageCounter::new();
    assert_eq!(c.value(), 0);
    assert_eq!(c.bump(), 1);
    assert_eq!(c.bump(), 2);
    assert_eq!(c.value(), 2);
}

#[test]
fn sanitized_texts_make_the_message() {
    let m = message_from_clean("ann".to_string(), "hi".to_string(), 4).unwrap();
    assert_eq!(m, ChatMessage { author: "ann".to_string(), body: "hi".to_string(), timestamp: 4 });
    assert_eq!(message_from_clean(String::new(), "hi".to_string(), 4).unwrap().author, "Anonymous");
    assert!(message_from_clean("ann".to_string(), String::new(), 4).is_none());
    assert!(message_from_clean("ann".to_string(), "x".repeat(999), 4).is_none());
    assert!(message_from_clean("ann".to_string(), "x".repeat(998), 4).is_some());
}

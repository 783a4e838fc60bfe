use moodjourney::store::{init_db, Entry, Journal, StoreError};

fn fresh_journal() -> Journal {
    init_db(None)
}

#[test]
fn test_add_and_get_entries() {
    let mut j = fresh_journal();

    let new_entry = Entry {
        date: "2025-04-20".to_string(),
        title: Some("Test Title".to_string()),
        content: Some("Test Content".to_string()),
        password: Some("1234".to_string()),
        image: Some("images/test_image.jpg".to_string()),
    };

    j.add_entry(new_entry).expect("Failed to add entry");

    let entries = j.get_entries();

    assert!(entries.len() > 0, "Expected at least one entry after adding.");
}

#[test]
fn test_get_update_delete_entry_by_date() {
    let mut j = fresh_journal();

    let entry = Entry {
        date: "2025-04-21".to_string(),
        title: Some("Initial Title".to_string()),
        content: Some("Initial Content".to_string()),
        password: Some("initpass".to_string()),
        image: None,
    };

    j.add_entry(entry).expect("add failed");

    let fetched = j.get_entry_by_date("2025-04-21").expect("no entry found after add");
    assert_eq!(fetched.title, Some("Initial Title".to_string()));
    assert!(fetched.image.is_none());

    j.update_entry_by_date("2025-04-21", "Updated", Some("Updated Content"), Some("newpass"), None)
        .expect("update failed");

    let updated = j.get_entry_by_date("2025-04-21").expect("no entry found after update");
    assert_eq!(updated.title, Some("Updated".to_string()));
    assert_eq!(updated.content.as_deref(), Some("Updated Content"));

    j.delete_entry_by_date("2025-04-21");

    let deleted = j.get_entry_by_date("2025-04-21");
    assert!(deleted.is_none(), "Entry should be None after deletion.");
}

#[test]
fn test_create_and_get_chat_session_from_db() -> Result<(), String> {
    let mut j = fresh_journal();

    let session_id = j.create_new_chat_session().map_err(|e| format!("{:?}", e))?;
    assert!(!session_id.is_empty(), "Session ID empty.");

    let sessions = j.get_all_chat_sessions();
    assert_eq!(sessions.len(), 1, "Expected one session.");
    assert_eq!(sessions[0].id, session_id, "Session ID mismatch.");
    assert!(sessions[0].title.is_none(), "New session title not None.");

    Ok(())
}

#[test]
fn test_save_and_get_chat_messages_from_db() -> Result<(), String> {
    let mut j = fresh_journal();

    let session_id = j.create_new_chat_session().map_err(|e| format!("{:?}", e))?;

    j.save_chat_message(&session_id, "user", "Hello Assistant!")
        .map_err(|e| format!("{:?}", e))?;
    j.save_chat_message(&session_id, "assistant", "Hello User!")
        .map_err(|e| format!("{:?}", e))?;

    let messages = j.get_messages_for_session(&session_id);
    assert_eq!(messages.len(), 2, "Expected two messages.");

    assert_eq!(messages[0].sender, "user");
    assert_eq!(messages[0].content, "Hello Assistant!");
    assert_eq!(messages[1].sender, "assistant");
    assert_eq!(messages[1].content, "Hello User!");

    assert!(messages[0].timestamp <= messages[1].timestamp, "Messages not ordered by timestamp.");

    Ok(())
}

#[test]
fn test_chat_session_title_update_on_first_user_message_in_db() -> Result<(), String> {
    let mut j = fresh_journal();
    let session_id = j.create_new_chat_session().map_err(|e| format!("{:?}", e))?;

    let first_message_content = "This is the very first message from the user.";
    j.save_chat_message(&session_id, "user", first_message_content)
        .map_err(|e| format!("{:?}", e))?;

    let sessions = j.get_all_chat_sessions();
    let session = sessions.iter().find(|s| s.id == session_id).expect("Session not found");

    let expected_title_prefix: String = first_message_content.chars().take(50).collect();
    let final_expected_title = if first_message_content.chars().count() > 50 {
        format!("{}...", expected_title_prefix)
    } else {
        expected_title_prefix.clone()
    };

    assert_eq!(
        session.title.as_ref().unwrap(),
        &final_expected_title,
        "Session title not set correctly."
    );

    j.save_chat_message(&session_id, "assistant", "Okay, interesting.")
        .map_err(|e| format!("{:?}", e))?;
    let sessions_after_assistant = j.get_all_chat_sessions();
    let session_after_assistant = sessions_after_assistant
        .iter()
        .find(|s| s.id == session_id)
        .expect("Session not found");
    assert_eq!(
        session_after_assistant.title.as_ref().unwrap(),
        &final_expected_title,
        "Session title changed after assistant message."
    );

    j.save_chat_message(&session_id, "user", "Another user message.")
        .map_err(|e| format!("{:?}", e))?;
    let sessions_after_second_user = j.get_all_chat_sessions();
    let session_after_second_user = sessions_after_second_user
        .iter()
        .find(|s| s.id == session_id)
        .expect("Session not found");
    assert_eq!(
        session_after_second_user.title.as_ref().unwrap(),
        &final_expected_title,
        "Session title changed after second user message."
    );

    Ok(())
}

#[test]
fn test_chat_session_title_truncation_in_db() -> Result<(), String> {
    let mut j = fresh_journal();
    let session_id = j.create_new_chat_session().map_err(|e| format!("{:?}", e))?;
    let long_message = "This is a very long first message that definitely exceeds the fifty character limit for the title of a chat session, it just keeps going on and on and on and on.";
    j.save_chat_message(&session_id, "user", long_message).map_err(|e| format!("{:?}", e))?;

    let sessions = j.get_all_chat_sessions();
    let session = sessions.iter().find(|s| s.id == session_id).expect("Session not found");

    let expected_truncated_prefix: String = long_message.chars().take(50).collect();
    let expected_title_with_ellipsis = format!("{}...", expected_truncated_prefix);

    assert_eq!(
        session.title.as_ref().unwrap(),
        &expected_title_with_ellipsis,
        "Session title not truncated correctly."
    );

    Ok(())
}

#[test]
fn test_delete_chat_session_and_cascade_in_db() -> Result<(), String> {
    let mut j = fresh_journal();
    let session_id1 = j.create_new_chat_session().map_err(|e| format!("{:?}", e))?;
    let session_id2 = j.create_new_chat_session().map_err(|e| format!("{:?}", e))?;

    j.save_chat_message(&session_id1, "user", "Hi from session 1")
        .map_err(|e| format!("{:?}", e))?;
    j.save_chat_message(&session_id1, "assistant", "Reply in session 1")
        .map_err(|e| format!("{:?}", e))?;
    j.save_chat_message(&session_id2, "user", "Hi from session 2")
        .map_err(|e| format!("{:?}", e))?;

    j.delete_chat_session(&session_id1);

    let sessions = j.get_all_chat_sessions();
    assert_eq!(sessions.len(), 1, "Expected one session left.");
    assert_eq!(sessions[0].id, session_id2, "Wrong session deleted or ID incorrect.");

    let messages_for_deleted_session = j.get_messages_for_session(&session_id1);
    assert!(messages_for_deleted_session.is_empty(), "Messages for deleted session not gone.");

    let messages_for_remaining_session = j.get_messages_for_session(&session_id2);
    assert_eq!(messages_for_remaining_session.len(), 1, "Messages for remaining session incorrect.");
    assert_eq!(messages_for_remaining_session[0].content, "Hi from session 2");

    Ok(())
}

#[test]
fn test_add_entry_round_trip() {
    let mut j = fresh_journal();
    let entry = Entry {
        date: "2031-07-15".to_string(),
        title: Some("A day".to_string()),
        content: Some("Long text".to_string()),
        password: None,
        image: None,
    };
    j.add_entry(entry).expect("add failed");
    let back = j.get_entry_by_date("2031-07-15").expect("entry must be found");
    assert_eq!(back.date, "2031-07-15");
    assert_eq!(back.title, Some("A day".to_string()));
    assert_eq!(back.content, Some("Long text".to_string()));
    assert_eq!(back.password, None);
    assert_eq!(back.image, None);
}

#[test]
fn test_duplicate_date_conflict() {
    let mut j = fresh_journal();
    let first = Entry {
        date: "2025-04-20".to_string(),
        title: Some("First".to_string()),
        content: None,
        password: None,
        image: None,
    };
    let second = Entry {
        date: "2025-04-20".to_string(),
        title: Some("Entirely different".to_string()),
        content: Some("other content".to_string()),
        password: Some("pw".to_string()),
        image: Some("img.png".to_string()),
    };
    j.add_entry(first).expect("first add failed");
    let r = j.add_entry(second);
    assert_eq!(r, Err(StoreError::Conflict));
    assert_eq!(j.get_entries().len(), 1);
}

#[test]
fn test_invalid_date_rejected_before_write() {
    let mut j = fresh_journal();
    let before = j.get_entries().len();
    let entry = Entry {
        date: "2025-13-40".to_string(),
        title: Some("Bad date".to_string()),
        content: None,
        password: None,
        image: None,
    };
    let r = j.add_entry(entry);
    assert_eq!(r, Err(StoreError::InvalidInput));
    assert_eq!(j.get_entries().len(), before, "No row may be written on invalid input.");
}

#[test]
fn test_missing_title_rejected() {
    let mut j = fresh_journal();
    let no_title = Entry {
        date: "2025-04-22".to_string(),
        title: None,
        content: None,
        password: None,
        image: None,
    };
    assert_eq!(j.add_entry(no_title), Err(StoreError::InvalidInput));
    let empty_title = Entry {
        date: "2025-04-22".to_string(),
        title: Some(String::new()),
        content: None,
        password: None,
        image: None,
    };
    assert_eq!(j.add_entry(empty_title), Err(StoreError::InvalidInput));
    assert_eq!(j.get_entries().len(), 0);
}

#[test]
fn test_entries_listed_most_recent_first() {
    let mut j = fresh_journal();
    for date in ["2024-12-31", "2025-06-15", "2025-01-01"] {
        let entry = Entry {
            date: date.to_string(),
            title: Some("t".to_string()),
            content: None,
            password: None,
            image: None,
        };
        j.add_entry(entry).expect("add failed");
    }
    let entries = j.get_entries();
    let dates: Vec<&str> = entries.iter().map(|e| e.date.as_str()).collect();
    assert_eq!(dates, vec!["2025-06-15", "2025-01-01", "2024-12-31"]);
}

#[test]
fn test_update_missing_date_is_noop() {
    let mut j = fresh_journal();
    j.update_entry_by_date("2025-04-21", "Title", None, None, None).expect("update failed");
    assert_eq!(j.get_entries().len(), 0);
}

#[test]
fn test_delete_missing_date_is_noop() {
    let mut j = fresh_journal();
    let entry = Entry {
        date: "2025-04-21".to_string(),
        title: Some("Keep me".to_string()),
        content: None,
        password: None,
        image: None,
    };
    j.add_entry(entry).expect("add failed");
    j.delete_entry_by_date("2020-01-01");
    assert_eq!(j.get_entries().len(), 1);
}

#[test]
fn test_message_to_unknown_session_not_found() {
    let mut j = fresh_journal();
    let r = j.save_chat_message("no-such-session", "user", "hello");
    assert_eq!(r, Err(StoreError::NotFound));
}

#[test]
fn test_empty_message_and_bad_sender_rejected() -> Result<(), String> {
    let mut j = fresh_journal();
    let sid = j.create_new_chat_session().map_err(|e| format!("{:?}", e))?;
    assert_eq!(j.save_chat_message(&sid, "user", ""), Err(StoreError::InvalidInput));
    assert_eq!(j.save_chat_message(&sid, "robot", "hi"), Err(StoreError::InvalidInput));
    assert!(j.get_messages_for_session(&sid).is_empty());
    Ok(())
}

#[test]
fn test_messages_ordered_by_timestamp_then_insertion() {
    let mut j = fresh_journal();
    j.create_chat_session_with("s1".to_string(), "2025-01-01T00:00:00+00:00".to_string())
        .expect("create failed");
    j.save_chat_message_at("s1", "user", "second", "2025-01-01T00:02:00+00:00")
        .expect("save failed");
    j.save_chat_message_at("s1", "user", "first", "2025-01-01T00:01:00+00:00")
        .expect("save failed");
    j.save_chat_message_at("s1", "assistant", "tied", "2025-01-01T00:02:00+00:00")
        .expect("save failed");
    let messages = j.get_messages_for_session("s1");
    let contents: Vec<&str> = messages.iter().map(|m| m.content.as_str()).collect();
    assert_eq!(contents, vec!["first", "second", "tied"]);
    assert!(messages[0].id < messages[1].id || messages[0].timestamp < messages[1].timestamp);
}

#[test]
fn test_sessions_ordered_by_last_modified_descending() {
    let mut j = fresh_journal();
    j.create_chat_session_with("old".to_string(), "2025-01-01T00:00:00+00:00".to_string())
        .expect("create failed");
    j.create_chat_session_with("new".to_string(), "2025-01-02T00:00:00+00:00".to_string())
        .expect("create failed");
    j.save_chat_message_at("old", "user", "bump", "2025-01-03T00:00:00+00:00")
        .expect("save failed");
    let sessions = j.get_all_chat_sessions();
    let ids: Vec<&str> = sessions.iter().map(|s| s.id.as_str()).collect();
    assert_eq!(ids, vec!["old", "new"]);
    assert_eq!(sessions[0].last_modified_at, "2025-01-03T00:00:00+00:00");
    assert_eq!(sessions[0].created_at, "2025-01-01T00:00:00+00:00");
}

#[test]
fn test_duplicate_session_id_conflict() {
    let mut j = fresh_journal();
    j.create_chat_session_with("dup".to_string(), "2025-01-01T00:00:00+00:00".to_string())
        .expect("create failed");
    let r = j.create_chat_session_with("dup".to_string(), "2025-01-02T00:00:00+00:00".to_string());
    assert_eq!(r, Err(StoreError::Conflict));
}

#[test]
fn test_init_db_twice_preserves_rows() {
    let j = init_db(None);
    let mut j = init_db(Some(j));
    let entry = Entry {
        date: "2025-04-20".to_string(),
        title: Some("Kept".to_string()),
        content: None,
        password: None,
        image: None,
    };
    j.add_entry(entry).expect("add failed");
    let sid = j.create_new_chat_session().expect("session failed");
    j.save_chat_message(&sid, "user", "still here").expect("save failed");

    let j = init_db(Some(j));
    assert_eq!(j.get_entries().len(), 1);
    assert_eq!(j.get_entries()[0].title, Some("Kept".to_string()));
    assert_eq!(j.get_all_chat_sessions().len(), 1);
    assert_eq!(j.get_messages_for_session(&sid).len(), 1);
}

#[test]
fn test_fresh_session_id_is_uuid_shaped() {
    let mut j = fresh_journal();
    let sid = j.create_new_chat_session().expect("session failed");
    assert_eq!(sid.chars().count(), 36);
}

#[test]
fn test_create_entry_with_now_round_trip() {
    let mut j = fresh_journal();
    j.create_entry_with_now("Today", Some("written now"), None, None).expect("create failed");
    let entries = j.get_entries();
    assert_eq!(entries.len(), 1);
    assert_eq!(entries[0].title, Some("Today".to_string()));
    assert_eq!(entries[0].content, Some("written now".to_string()));
    // the stamped date is a valid calendar date of the strict shape
    assert!(moodjourney::is_valid_date(&entries[0].date));
    // a second entry for the same day conflicts
    let r = j.create_entry_with_now("Again", None, None, None);
    assert_eq!(r, Err(StoreError::Conflict));
}

#[test]
fn test_from_rows_round_trip() {
    let mut j = fresh_journal();
    let entry = Entry {
        date: "2025-04-20".to_string(),
        title: Some("Kept".to_string()),
        content: Some("body".to_string()),
        password: None,
        image: None,
    };
    j.add_entry(entry).expect("add failed");
    j.create_chat_session_with("s1".to_string(), "2025-01-01T00:00:00+00:00".to_string())
        .expect("create failed");
    j.save_chat_message_at("s1", "user", "hello", "2025-01-01T00:01:00+00:00")
        .expect("save failed");
    j.save_chat_message_at("s1", "assistant", "hi", "2025-01-01T00:02:00+00:00")
        .expect("save failed");

    let entries = j.get_entries();
    let sessions = j.get_all_chat_sessions();
    let messages = j.get_all_chat_messages();
    let next = j.next_message_id_value();

    let j2 = Journal::from_rows(entries, sessions, messages, next).expect("rows must load");
    assert_eq!(j2.get_entries().len(), 1);
    assert_eq!(j2.get_all_chat_sessions().len(), 1);
    assert_eq!(j2.get_messages_for_session("s1").len(), 2);
    assert_eq!(j2.next_message_id_value(), next);
    assert_eq!(
        j2.get_all_chat_sessions()[0].title,
        j.get_all_chat_sessions()[0].title
    );
}

#[test]
fn test_from_rows_rejects_ill_formed_rows() {
    // entries out of descending date order
    let e1 = Entry {
        date: "2025-01-01".to_string(),
        title: Some("a".to_string()),
        content: None,
        password: None,
        image: None,
    };
    let e2 = Entry {
        date: "2025-06-01".to_string(),
        title: Some("b".to_string()),
        content: None,
        password: None,
        image: None,
    };
    let r = Journal::from_rows(vec![e1, e2], Vec::new(), Vec::new(), 0);
    assert_eq!(r.err(), Some(StoreError::InvalidInput));

    // a message that references no session
    let orphan = moodjourney::store::ChatMessage {
        id: 0,
        session_id: "ghost".to_string(),
        sender: "user".to_string(),
        content: "hi".to_string(),
        timestamp: "2025-01-01T00:00:00+00:00".to_string(),
    };
    let r = Journal::from_rows(Vec::new(), Vec::new(), vec![orphan], 1);
    assert_eq!(r.err(), Some(StoreError::InvalidInput));
}

#[test]
fn test_message_id_space_exhausted() {
    let session = moodjourney::store::ChatSession {
        id: "s1".to_string(),
        created_at: "2025-01-01T00:00:00+00:00".to_string(),
        last_modified_at: "2025-01-01T00:00:00+00:00".to_string(),
        title: None,
    };
    let mut j = Journal::from_rows(Vec::new(), vec![session], Vec::new(), i64::MAX)
        .expect("rows must load");
    let r = j.save_chat_message_at("s1", "user", "one too many", "2025-01-02T00:00:00+00:00");
    assert_eq!(r, Err(StoreError::StorageIO));
    assert!(j.get_messages_for_session("s1").is_empty());
}

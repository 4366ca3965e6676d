use i18n_core::extractor::{extract, Message};
use i18n_core::generator::{filename_is_todo, new_translation_keys, qualified_key, todo_filename};

fn keys_of(messages: &[Message]) -> Vec<String> {
    messages.iter().map(|m| m.key.clone()).collect()
}

#[test]
fn extract_finds_literal_keys_in_order() {
    let mut messages: Vec<Message> = Vec::new();
    let source = "fn main() {\n    let a = t!(\"messages.hello\");\n    let b = t!(\"messages.bye\");\n}\n";
    extract(&mut messages, "src/main.rs", source);
    assert_eq!(keys_of(&messages), vec!["messages.hello", "messages.bye"]);
    assert_eq!(messages[0].index, 0);
    assert_eq!(messages[1].index, 1);
    assert_eq!(messages[0].locations.len(), 1);
    assert_eq!(messages[0].locations[0].path, "src/main.rs");
    assert_eq!(messages[0].locations[0].line, 2);
    assert_eq!(messages[1].locations[0].line, 3);
}

#[test]
fn extract_appends_locations_for_repeated_key() {
    let mut messages: Vec<Message> = Vec::new();
    extract(&mut messages, "a.rs", "t!(\"k\")\nt!(\"k\", locale = \"en\")\n");
    assert_eq!(messages.len(), 1);
    assert_eq!(messages[0].key, "k");
    assert_eq!(messages[0].locations.len(), 2);
    assert_eq!(messages[0].locations[0].line, 1);
    assert_eq!(messages[0].locations[1].line, 2);
}

#[test]
fn extract_skips_longer_names_ending_in_t() {
    let mut messages: Vec<Message> = Vec::new();
    extract(&mut messages, "a.rs", "print!(\"no\"); format!(\"no\"); t!(\"yes\")");
    assert_eq!(keys_of(&messages), vec!["yes"]);
}

#[test]
fn extract_skips_dynamic_keys_and_unclosed_quotes() {
    let mut messages: Vec<Message> = Vec::new();
    extract(&mut messages, "a.rs", "t!(key_var); t!(format_key())");
    assert_eq!(messages.len(), 0);
    extract(&mut messages, "b.rs", "t!(\"never closed");
    assert_eq!(messages.len(), 0);
}

#[test]
fn extract_spans_multiple_units() {
    let mut messages: Vec<Message> = Vec::new();
    extract(&mut messages, "a.rs", "t!(\"shared\")");
    extract(&mut messages, "b.rs", "t!(\"shared\")\nt!(\"only.b\")");
    assert_eq!(keys_of(&messages), vec!["shared", "only.b"]);
    assert_eq!(messages[0].locations.len(), 2);
    assert_eq!(messages[0].locations[0].path, "a.rs");
    assert_eq!(messages[0].locations[1].path, "b.rs");
}

#[test]
fn extraction_is_deterministic() {
    let corpus = [
        ("src/a.rs", "t!(\"one\")\nt!(\"two\")\nt!(\"one\")\n"),
        ("src/b.rs", "nothing here"),
        ("src/c.rs", "t!(\"two\", locale = \"de\")"),
    ];
    let mut first: Vec<Message> = Vec::new();
    for (path, text) in corpus.iter() {
        extract(&mut first, path, text);
    }
    let mut second: Vec<Message> = Vec::new();
    for (path, text) in corpus.iter() {
        extract(&mut second, path, text);
    }
    assert_eq!(first, second);
}

#[test]
fn reconcile_drops_already_translated_keys() {
    let mut messages: Vec<Message> = Vec::new();
    extract(&mut messages, "lib.rs", "t!(\"hello\") t!(\"greet\")");
    let existing = vec!["en.hello".to_owned()];
    let new_keys = new_translation_keys("en", &messages, &existing);
    assert_eq!(new_keys, vec!["greet"]);
    assert_eq!(new_keys.len(), 1);
}

#[test]
fn reconcile_reports_nothing_when_all_translated() {
    let mut messages: Vec<Message> = Vec::new();
    extract(&mut messages, "lib.rs", "t!(\"hello\")");
    let existing = vec!["en.hello".to_owned()];
    let new_keys = new_translation_keys("en", &messages, &existing);
    assert!(new_keys.is_empty());
}

#[test]
fn reconcile_round_trip_finds_nothing_new() {
    let mut messages: Vec<Message> = Vec::new();
    extract(&mut messages, "lib.rs", "t!(\"hello\") t!(\"greet\") t!(\"bye\")");
    let mut existing = vec!["en.hello".to_owned()];
    let new_keys = new_translation_keys("en", &messages, &existing);
    assert_eq!(new_keys, vec!["greet", "bye"]);
    // the human fills the to-do file in and merges it into the tree
    for key in new_keys {
        existing.push(qualified_key("en", &key));
    }
    let again = new_translation_keys("en", &messages, &existing);
    assert!(again.is_empty());
}

#[test]
fn extract_handles_empty_and_odd_units() {
    let mut messages: Vec<Message> = Vec::new();
    extract(&mut messages, "empty.rs", "");
    assert_eq!(messages.len(), 0);
    // an empty literal key is still a key
    extract(&mut messages, "a.rs", "t!(\"\")");
    assert_eq!(messages.len(), 1);
    assert_eq!(messages[0].key, "");
    // multibyte text around an invocation does not disturb the scan
    let mut more: Vec<Message> = Vec::new();
    extract(&mut more, "b.rs", "// 你好 мир\nlet s = t!(\"greet\"); // 测试\n");
    assert_eq!(keys_of(&more), vec!["greet"]);
    assert_eq!(more[0].locations[0].line, 2);
}

#[test]
fn reconcile_with_no_messages_or_no_existing() {
    let messages: Vec<Message> = Vec::new();
    let new_keys = new_translation_keys("en", &messages, &vec!["en.a".to_owned()]);
    assert!(new_keys.is_empty());

    let mut messages: Vec<Message> = Vec::new();
    extract(&mut messages, "a.rs", "t!(\"a\") t!(\"b\")");
    let new_keys = new_translation_keys("en", &messages, &Vec::new());
    assert_eq!(new_keys, vec!["a", "b"]);
}

#[test]
fn todo_filename_embeds_locale() {
    assert_eq!(todo_filename("en"), "TODO.en.yml".to_owned());
    assert_eq!(todo_filename("zh-CN"), "TODO.zh-CN.yml".to_owned());
}

#[test]
fn todo_files_are_recognized_and_excluded() {
    assert!(filename_is_todo("TODO.en.yml", "en"));
    assert!(filename_is_todo("locales/TODO.en.yml", "en"));
    assert!(!filename_is_todo("locales/en.yml", "en"));
    assert!(!filename_is_todo("TODO.en.yml", "de"));
}

#[test]
fn qualified_key_joins_locale_and_key() {
    assert_eq!(qualified_key("en", "messages.hello"), "en.messages.hello".to_owned());
}

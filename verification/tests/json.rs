use task_store::store::TaskList;
use task_store::task::TaskError;

fn store_of(items: &[(&str, bool)]) -> TaskList {
    let mut l = TaskList::new();
    for (d, done) in items.iter() {
        assert!(l.add_task(String::from(*d)).is_ok());
        if *done {
            assert!(l.complete_task(l.len()).is_ok());
        }
    }
    l
}

#[test]
fn to_json_exact_text() {
    let l = store_of(&[("buy milk", false)]);
    assert_eq!(l.to_json(), String::from("[{\"description\":\"buy milk\",\"completed\":false}]"));
}

#[test]
fn to_json_empty_store() {
    let l = TaskList::new();
    assert_eq!(l.to_json(), String::from("[]"));
}

#[test]
fn round_trip_plain() {
    let l = store_of(&[("buy milk", false), ("write report", true), ("call home", false)]);
    let text = l.to_json();
    let back = TaskList::from_json(&text).expect("canonical text must parse");
    assert_eq!(back.list_tasks(), l.list_tasks());
}

#[test]
fn round_trip_escaped_characters() {
    let l = store_of(&[
        ("say \"hi\"", false),
        ("back\\slash", true),
        ("line\nbreak and tab\t", false),
        ("control\u{1}char\u{1f}", true),
    ]);
    let text = l.to_json();
    let back = TaskList::from_json(&text).expect("escaped text must parse");
    assert_eq!(back.list_tasks(), l.list_tasks());
}

#[test]
fn control_characters_are_escaped_in_text() {
    let l = store_of(&[("a\u{1}b", false)]);
    let text = l.to_json();
    assert!(text.contains("\\u0001"));
    assert!(!text.contains('\u{1}'));
}

#[test]
fn parse_accepts_whitespace_and_escapes() {
    let text = "[\n  {\n    \"description\": \"say \\\"hi\\\"\",\n    \"completed\": false\n  },\n  {\n    \"description\": \"tab\\there\",\n    \"completed\": true\n  }\n]\n";
    let l = TaskList::from_json(text).expect("pretty text must parse");
    let r = l.list_tasks();
    assert_eq!(r.len(), 2);
    assert_eq!(r[0], (1, String::from("say \"hi\""), false));
    assert_eq!(r[1], (2, String::from("tab\there"), true));
}

#[test]
fn parse_accepts_empty_array() {
    let l = TaskList::from_json("  [ ]  ").expect("an empty array must parse");
    assert_eq!(l.len(), 0);
}

#[test]
fn parse_rejects_malformed_text() {
    for text in [
        "",
        "   ",
        "[",
        "]",
        "not json",
        "{\"description\":\"a\",\"completed\":false}",
        "[{\"description\":\"a\"}]",
        "[{\"completed\":false,\"description\":\"a\"}]",
        "[{\"description\":\"a\",\"completed\":false}] trailing",
        "[{\"description\":\"a\",\"completed\":false},]",
        "[{\"description\":\"a\u{1}\",\"completed\":false}]",
    ] {
        assert_eq!(
            TaskList::from_json(text).err(),
            Some(TaskError::CorruptStore),
            "text should be refused: {:?}",
            text
        );
    }
}

#[test]
fn serde_json_reads_what_the_store_writes() {
    let l = store_of(&[("say \"hi\"", true), ("plain", false)]);
    let value: serde_json::Value =
        serde_json::from_str(&l.to_json()).expect("the store's text must be valid JSON");
    let items = value.as_array().expect("an array");
    assert_eq!(items.len(), 2);
    assert_eq!(items[0]["description"].as_str(), Some("say \"hi\""));
    assert_eq!(items[0]["completed"].as_bool(), Some(true));
    assert_eq!(items[1]["description"].as_str(), Some("plain"));
    assert_eq!(items[1]["completed"].as_bool(), Some(false));
}

#[test]
fn the_store_and_serde_json_agree_on_foreign_text() {
    let text = "[\n  {\n    \"description\": \"from \\u0065lsewhere\",\n    \"completed\": true\n  }\n]";
    let l = TaskList::from_json(text).expect("the store must read it");
    let value: serde_json::Value = serde_json::from_str(text).expect("serde_json must read it");
    let r = l.list_tasks();
    assert_eq!(r.len(), 1);
    assert_eq!(value.as_array().map(|a| a.len()), Some(1));
    assert_eq!(value[0]["description"].as_str(), Some(r[0].1.as_str()));
    assert_eq!(value[0]["completed"].as_bool(), Some(r[0].2));
    assert_eq!(r[0], (1, String::from("from elsewhere"), true));
}

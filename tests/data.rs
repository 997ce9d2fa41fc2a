use zine::data::ZineData;

fn preview(title: &str, description: &str) -> (String, String) {
    (title.to_string(), description.to_string())
}

fn entry(url: &str, title: &str, description: &str) -> (String, (String, String)) {
    (url.to_string(), preview(title, description))
}

#[test]
fn new_without_stored_data_is_empty() {
    let data = ZineData::new(None);
    assert!(data.is_empty());
    assert!(data.url_previews().is_empty());
}

#[test]
fn insert_makes_store_non_empty() {
    let mut data = ZineData::new(None);
    data.insert_url_preview("https://a.example", preview("A", "first"));
    assert!(!data.is_empty());
    assert_eq!(data.url_previews(), &vec![entry("https://a.example", "A", "first")]);
}

#[test]
fn last_write_wins() {
    let mut data = ZineData::new(None);
    data.insert_url_preview("https://a.example", preview("old", "old text"));
    data.insert_url_preview("https://a.example", preview("new", "new text"));
    assert_eq!(data.url_previews(), &vec![entry("https://a.example", "new", "new text")]);
}

#[test]
fn previews_are_held_in_key_order() {
    let mut data = ZineData::new(None);
    data.insert_url_preview("https://c.example", preview("C", "c"));
    data.insert_url_preview("https://a.example", preview("A", "a"));
    data.insert_url_preview("https://b.example", preview("B", "b"));
    data.insert_url_preview("https://a.example/x", preview("AX", "ax"));
    assert_eq!(
        data.url_previews(),
        &vec![
            entry("https://a.example", "A", "a"),
            entry("https://a.example/x", "AX", "ax"),
            entry("https://b.example", "B", "b"),
            entry("https://c.example", "C", "c"),
        ]
    );
}

#[test]
fn key_order_goes_by_character() {
    let mut data = ZineData::new(None);
    data.insert_url_preview("é", preview("e acute", ""));
    data.insert_url_preview("z", preview("zed", ""));
    data.insert_url_preview("Z", preview("upper zed", ""));
    data.insert_url_preview("", preview("empty", ""));
    let keys: Vec<&str> = data.url_previews().iter().map(|e| e.0.as_str()).collect();
    assert_eq!(keys, vec!["", "Z", "z", "é"]);
}

#[test]
fn round_trip_through_entries_keeps_the_mapping() {
    let urls = ["https://d.example", "https://b.example", "https://a.example", "https://c.example"];
    let mut forward = ZineData::new(None);
    for (i, url) in urls.iter().enumerate() {
        forward.insert_url_preview(url, preview(&format!("title {}", i), &format!("desc {}", i)));
    }
    let mut backward = ZineData::new(None);
    for (i, url) in urls.iter().enumerate().rev() {
        backward.insert_url_preview(url, preview(&format!("title {}", i), &format!("desc {}", i)));
    }
    let exported = forward.url_previews().clone();
    let reloaded = ZineData::new(Some(exported.clone()));
    assert_eq!(reloaded.url_previews(), &exported);
    assert_eq!(backward.url_previews(), &exported);
    assert_eq!(exported.len(), 4);
}

#[test]
fn new_from_stored_entries_keeps_the_last_of_a_key() {
    let stored = vec![
        entry("https://b.example", "B", "b"),
        entry("https://a.example", "A1", "a1"),
        entry("https://a.example", "A2", "a2"),
    ];
    let data = ZineData::new(Some(stored));
    assert_eq!(
        data.url_previews(),
        &vec![entry("https://a.example", "A2", "a2"), entry("https://b.example", "B", "b")]
    );
}

#[test]
fn new_from_empty_stored_entries_is_empty() {
    let data = ZineData::new(Some(vec![]));
    assert!(data.is_empty());
}

#[test]
fn many_distinct_inserts_are_all_present() {
    let mut data = ZineData::new(None);
    for i in 0..50 {
        data.insert_url_preview(&format!("https://site.example/{:02}", 49 - i), preview("t", "d"));
    }
    let previews = data.url_previews();
    assert_eq!(previews.len(), 50);
    for (i, e) in previews.iter().enumerate() {
        assert_eq!(e.0, format!("https://site.example/{:02}", i));
    }
}

use zine::functions::{featured, markdown_to_html};

#[test]
fn featured_keeps_flagged_records_in_order() {
    let articles = vec![
        (false, "zero"),
        (true, "one"),
        (false, "two"),
        (true, "three"),
        (false, "four"),
    ];
    assert_eq!(featured(Some(articles)), vec!["one", "three"]);
}

#[test]
fn featured_without_articles_is_empty() {
    let r: Vec<&str> = featured(None);
    assert!(r.is_empty());
}

#[test]
fn featured_of_empty_sequence_is_empty() {
    let r: Vec<u32> = featured(Some(vec![]));
    assert!(r.is_empty());
}

#[test]
fn featured_with_no_flag_set_is_empty() {
    let r = featured(Some(vec![(false, 1u32), (false, 2u32)]));
    assert!(r.is_empty());
}

#[test]
fn markdown_heading_and_bold() {
    let html = markdown_to_html(Some("# Title\n\nSome **bold** text.")).unwrap();
    assert!(html.contains("<h1>Title</h1>"));
    assert!(html.contains("<strong>bold</strong>"));
}

#[test]
fn markdown_extensions_are_enabled() {
    let html = markdown_to_html(Some("~~gone~~\n\n| a | b |\n|---|---|\n| 1 | 2 |\n")).unwrap();
    assert!(html.contains("<del>gone</del>"));
    assert!(html.contains("<table>"));
}

#[test]
fn markdown_without_argument_is_none() {
    assert_eq!(markdown_to_html(None), None);
}

#[test]
fn markdown_of_empty_text_is_empty() {
    assert_eq!(markdown_to_html(Some("")), Some(String::new()));
}

use blake::html::render_markdown;
use blake::markdown::{body_options, parse_document, parse_options, render_html};
use blake::posts::Error;
use blake::sidenotes::{render, render_sidenote_html};

fn count(haystack: &str, needle: &str) -> usize {
    haystack.matches(needle).count()
}

#[test]
fn plain_document_has_no_title_and_renders_as_is() {
    let contents = "## not a title\n\nsome *text* here\n";
    let (title, body) = render_markdown(contents).unwrap();
    assert_eq!(title, None);
    let tree = parse_document(contents, parse_options());
    let direct = render_html(&tree, body_options()).unwrap();
    assert_eq!(body, direct);
    let transformed = render(parse_document(contents, parse_options())).unwrap();
    assert_eq!(transformed.nodes.len(), tree.nodes.len());
}

#[test]
fn one_reference_gives_one_sidenote() {
    let (_, body) = render_markdown("a[^1] b\n\n[^1]: note\n").unwrap();
    assert_eq!(count(&body, "for=\"sn-1\""), 1);
    assert_eq!(count(&body, "id=\"sn-1\""), 1);
    assert_eq!(count(&body, "footnote-ref"), 0);
    assert_eq!(count(&body, "[^1]"), 0);
}

#[test]
fn footnotes_are_numbered_in_order_of_reference() {
    let (_, body) = render_markdown("a[^t] b\n\n[^t]: note\n").unwrap();
    assert_eq!(count(&body, "id=\"sn-1\""), 1);
    assert_eq!(count(&body, "[^t]"), 0);
}

#[test]
fn two_references_give_two_identical_sidenotes() {
    let (_, body) = render_markdown("a[^1] b[^1]\n\n[^1]: note\n").unwrap();
    assert_eq!(count(&body, "for=\"sn-1\""), 2);
    assert_eq!(count(&body, "id=\"sn-1\""), 2);
    assert_eq!(count(&body, "<span class=\"sidenote\">note</span>"), 2);
}

#[test]
fn title_is_first_level_one_heading() {
    assert_eq!(render_markdown("# title\n\nbody").unwrap().0, Some("title".to_string()));
    assert_eq!(render_markdown("no heading").unwrap().0, None);
    assert_eq!(render_markdown("# one\n\n# two\n").unwrap().0, Some("one".to_string()));
}

#[test]
fn title_takes_text_under_the_heading() {
    assert_eq!(render_markdown("# a *b* c\n").unwrap().0, Some("a b c".to_string()));
}

#[test]
fn smart_quotes_and_strikethrough() {
    assert_eq!(render_markdown("here's a \"thing\"").unwrap().1, "<p>here’s a “thing”</p>\n");
    assert_eq!(render_markdown("this is a ~thing~").unwrap().1, "<p>this is a <del>thing</del></p>\n");
}

#[test]
fn footnote_with_two_paragraphs_is_a_structural_error() {
    let result = render_markdown("a[^1]\n\n[^1]: first\n\n    second\n");
    match result {
        Err(Error::StructuralError(tag)) => assert_eq!(tag, b"1".to_vec()),
        _ => panic!("expected a structural error"),
    }
}

#[test]
fn sidenote_of_invalid_utf8_is_an_encoding_error() {
    assert!(matches!(render_sidenote_html(vec![0xff], b"x".to_vec()), Err(Error::EncodingError)));
    assert!(matches!(render_sidenote_html(b"1".to_vec(), vec![0xc3]), Err(Error::EncodingError)));
}

#[test]
fn unknown_tag_is_left_alone() {
    let (_, body) = render_markdown("a[^x] b\n").unwrap();
    assert_eq!(count(&body, "sidenote"), 0);
}

#[test]
fn duplicate_tag_takes_last_definition() {
    let (_, body) = render_markdown("a[^1]\n\n[^1]: first\n\n[^1]: second\n").unwrap();
    assert_eq!(
        body,
        "<p>a<span><label class=\"margin-toggle sidenote-number\" for=\"sn-1\"></label><input class=\"margin-toggle\" id=\"sn-1\" type=\"checkbox\"/><span class=\"sidenote\">second</span></span></p>\n"
    );
}

#[test]
fn empty_document() {
    let (title, body) = render_markdown("").unwrap();
    assert_eq!(title, None);
    assert_eq!(body, "");
}

#[test]
fn table_syntax_stays_text() {
    let (_, body) = render_markdown("| a | b |\n|---|---|\n| 1 | 2 |\n").unwrap();
    assert!(!body.contains("<table>"));
    assert!(body.starts_with("<p>| a | b |"));
}

use blake::html::render_markdown;
use blake::markdown::{find_title, parse_document, Options};
use blake::sidenotes::{detach_footnote_definitions, render_footnode_definition_as_sidenote, render_sidenote_html};
use comrak::nodes::NodeValue;

fn plain() -> Options {
    Options { footnotes: false, strikethrough: false, smart: false, raw_html: false }
}

fn with_footnotes() -> Options {
    Options { footnotes: true, strikethrough: false, smart: false, raw_html: false }
}

#[test]
fn test_no_title() {
    let contents = "no heading here";
    let tree = parse_document(contents, plain());
    assert_eq!(find_title(&tree), None)
}

#[test]
fn test_title() {
    let contents = "# title

paragraph text";
    let tree = parse_document(contents, plain());
    assert_eq!(find_title(&tree), Some(String::from("title")))
}

#[test]
fn test_two_titles() {
    let contents = "# title

paragraph text

# second title

more text
";
    let tree = parse_document(contents, plain());
    assert_eq!(find_title(&tree), Some(String::from("title")))
}

#[test]
fn test_basic_render() {
    let contents = "here's a *thing*";
    let (_, rendered) = render_markdown(contents).unwrap();
    assert_eq!(rendered, "<p>here’s a <em>thing</em></p>\n");
}

#[test]
fn test_quotes() {
    let contents = "here's a \"thing\"";
    let (_, rendered) = render_markdown(contents).unwrap();
    assert_eq!(rendered, "<p>here’s a “thing”</p>\n");
}

#[test]
fn test_strikethrough() {
    let contents = "this is a ~thing~";
    let (_, rendered) = render_markdown(contents).unwrap();
    assert_eq!(rendered, "<p>this is a <del>thing</del></p>\n");
}

#[test]
fn test_sidenotes() {
    let contents = "I mentioned[^1] a thing.

[^1]: The thing I mentioned
";
    let (_, rendered) = render_markdown(contents).unwrap();
    let expected = "<p>I mentioned<span>\
                    <label class=\"margin-toggle sidenote-number\" for=\"sn-1\"></label>\
                    <input class=\"margin-toggle\" id=\"sn-1\" type=\"checkbox\"/>\
                    <span class=\"sidenote\">The thing I mentioned</span>\
                    </span> a thing.</p>\n";
    assert_eq!(rendered, expected);
}

fn definition_tag(def: &[blake::tree::Node]) -> Vec<u8> {
    match &def[0].value {
        NodeValue::FootnoteDefinition(tag) => tag.clone(),
        _ => panic!("Unexpected value"),
    }
}

#[test]
fn test_find_footnote_definitions() {
    let contents = "I mentioned[^1] a thing.

[^1]: The thing I mentioned
";
    let tree = parse_document(contents, with_footnotes());
    let (_, footnotes) = detach_footnote_definitions(tree.nodes);
    let keys = footnotes.iter().map(|d| definition_tag(d)).collect::<Vec<Vec<u8>>>();
    assert_eq!(keys, vec![b"1".to_vec()]);
}

#[test]
fn test_render_footnote_definition() {
    let contents = "I mentioned[^1] a thing.

[^1]: Word
";
    let tree = parse_document(contents, with_footnotes());
    let (_, mut footnotes) = detach_footnote_definitions(tree.nodes);
    let definition = footnotes.remove(0);
    let value = render_footnode_definition_as_sidenote(&Vec::from("1"), definition);
    match value {
        Ok(html) => assert_eq!(String::from_utf8(html).unwrap(), "<span><label class=\"margin-toggle sidenote-number\" for=\"sn-1\"></label><input class=\"margin-toggle\" id=\"sn-1\" type=\"checkbox\"/><span class=\"sidenote\">Word</span></span>"),
        _ => panic!("Unexpected value"),
    }
}

#[test]
fn sidenote_markup_wraps_tag_and_content() {
    let out = render_sidenote_html(b"a".to_vec(), b"<em>x</em>".to_vec()).unwrap();
    assert_eq!(
        String::from_utf8(out).unwrap(),
        "<span><label class=\"margin-toggle sidenote-number\" for=\"sn-a\"></label><input class=\"margin-toggle\" id=\"sn-a\" type=\"checkbox\"/><span class=\"sidenote\"><em>x</em></span></span>"
    );
}

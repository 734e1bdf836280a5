use vstd::prelude::*;
use vstd::utf8::{decode_utf8, valid_utf8};

use comrak::nodes::{
    AstNode, ListDelimType, ListType, NodeCodeBlock, NodeDescriptionItem, NodeHeading,
    NodeHtmlBlock, NodeLink, NodeList, NodeValue, TableAlignment,
};
use comrak::ComrakOptions;

use crate::bytes::{append_bytes, string_from_utf8};
use crate::posts::Error;
use crate::sidenotes::{reference_tags_utf8, references_are_utf8};
use crate::tree::{
    index_of, lemma_subtree_end, no_tables, parent, parents_of, subtree_end, subtree_end_of, views, well_formed,
    Item, Node, NodeView, Tree,
};

verus! {

broadcast use crate::tree::lemma_views;

#[verifier::external_type_specification]
pub struct ExNodeValue(NodeValue);

#[verifier::external_type_specification]
pub struct ExNodeHeading(NodeHeading);

#[verifier::external_type_specification]
#[verifier::external_body]
pub struct ExNodeList(NodeList);

#[verifier::external_type_specification]
#[verifier::external_body]
pub struct ExNodeDescriptionItem(NodeDescriptionItem);

#[verifier::external_type_specification]
#[verifier::external_body]
pub struct ExNodeCodeBlock(NodeCodeBlock);

#[verifier::external_type_specification]
#[verifier::external_body]
pub struct ExNodeHtmlBlock(NodeHtmlBlock);

#[verifier::external_type_specification]
#[verifier::external_body]
pub struct ExNodeLink(NodeLink);

#[verifier::external_type_specification]
#[verifier::external_body]
pub struct ExTableAlignment(TableAlignment);

#[verifier::external_type_specification]
#[verifier::external_body]
pub struct ExListType(ListType);

#[verifier::external_type_specification]
#[verifier::external_body]
pub struct ExListDelimType(ListDelimType);

#[verifier::external_type_specification]
pub struct ExComrakOptions(ComrakOptions);

/// The markdown extensions and rendering switches in use.
#[derive(Clone, Copy)]
pub struct Options {
    pub footnotes: bool,
    pub strikethrough: bool,
    pub smart: bool,
    pub raw_html: bool,
}

impl Options {
    /// comrak's options with these switches, and every other one off.
    pub fn to_comrak(&self) -> (r: ComrakOptions)
        ensures
            r.ext_footnotes == self.footnotes,
            r.ext_strikethrough == self.strikethrough,
            r.smart == self.smart,
            r.unsafe_ == self.raw_html,
            !r.hardbreaks && !r.github_pre_lang && r.width == 0,
            r.default_info_string is None && r.ext_header_ids is None,
            !r.ext_tagfilter && !r.ext_table && !r.ext_autolink && !r.ext_tasklist,
            !r.ext_superscript && !r.ext_description_lists,
    {
        ComrakOptions {
            hardbreaks: false,
            smart: self.smart,
            github_pre_lang: false,
            width: 0,
            default_info_string: None,
            unsafe_: self.raw_html,
            ext_strikethrough: self.strikethrough,
            ext_tagfilter: false,
            ext_table: false,
            ext_autolink: false,
            ext_tasklist: false,
            ext_superscript: false,
            ext_header_ids: None,
            ext_footnotes: self.footnotes,
            ext_description_lists: false,
        }
    }
}

/// How posts are parsed: footnotes, strikethrough and smart punctuation.
pub open spec fn parse_options_spec() -> Options {
    Options { footnotes: true, strikethrough: true, smart: true, raw_html: false }
}

/// How a footnote's content is rendered: as parsed, without footnotes.
pub open spec fn note_options_spec() -> Options {
    Options { footnotes: false, ..parse_options_spec() }
}

/// How a post's body is rendered: raw HTML (the sidenotes) passes through.
pub open spec fn body_options_spec() -> Options {
    Options { footnotes: false, raw_html: true, ..parse_options_spec() }
}

pub fn parse_options() -> (r: Options)
    ensures
        r == parse_options_spec(),
{
    Options { footnotes: true, strikethrough: true, smart: true, raw_html: false }
}

pub fn note_options() -> (r: Options)
    ensures
        r == note_options_spec(),
{
    Options { footnotes: false, strikethrough: true, smart: true, raw_html: false }
}

pub fn body_options() -> (r: Options)
    ensures
        r == body_options_spec(),
{
    Options { footnotes: false, strikethrough: true, smart: true, raw_html: true }
}

/// The nodes that comrak's parser makes of a text.
pub uninterp spec fn parsed_markdown(text: Seq<char>, options: Options) -> Seq<NodeView>;

/// The HTML that comrak writes for a tree.
pub uninterp spec fn rendered_html(nodes: Seq<NodeView>, options: Options) -> Seq<u8>;

/// Relies on comrak::parse_document; the nodes are read in document order
/// (`descendants`), each with the number of its ancestors as its depth, which
/// gives a well-formed tree. The table extension is off (`to_comrak`), so
/// comrak makes no table nodes. Footnote definitions are made only with the
/// footnote extension on, and comrak then keeps only those that are
/// referenced (`process_footnotes`), so without references there are none.
#[verifier::external_body]
fn comrak_parse(contents: &str, options: Options) -> (r: Tree)
    ensures
        r@ == parsed_markdown(contents@, options),
        well_formed(r@),
        no_tables(r@),
        (forall|k: int| 0 <= k < r@.len() ==> !(#[trigger] r@[k].item is FootnoteReference)) ==> (
        forall|k: int| 0 <= k < r@.len() ==> !(#[trigger] r@[k].item is FootnoteDefinition)),
{
    let arena = comrak::Arena::new();
    let root = comrak::parse_document(&arena, contents, &options.to_comrak());
    let nodes = root.descendants().map(|n| Node {
        value: n.data.borrow().value.clone(),
        depth: n.ancestors().skip(1).count(),
    }).collect();
    Tree { nodes }
}

/// Relies on comrak::format_html, on the comrak tree that the nodes describe:
/// each node is appended to its parent, in document order. comrak fails only
/// where the writer fails, and writing into a `Vec` does not fail. comrak
/// panics on a footnote reference whose tag is not UTF-8, on table nodes that
/// are not laid out as a table, and on a paragraph without a parent (the root
/// is a document).
#[verifier::external_body]
pub(crate) fn format_html(tree: &Tree, parents: &Vec<Option<usize>>, options: Options) -> (r: Option<Vec<u8>>)
    requires
        well_formed(tree@),
        no_tables(tree@),
        parents@.len() == tree@.len(),
        forall|k: int| 0 <= k < tree@.len() ==> index_of(#[trigger] parents@[k]) == parent(tree@, k),
        forall|k: int| 0 <= k < tree@.len() ==> (#[trigger] parents@[k] matches Some(p) ==> p < k),
        reference_tags_utf8(tree@),
    ensures
        r is Some,
        r matches Some(h) ==> h@ == rendered_html(tree@, options),
{
    let arena = comrak::Arena::new();
    let mut nodes: Vec<&AstNode> = Vec::new();
    for (node, parent) in tree.nodes.iter().zip(parents.iter()) {
        let n = arena.alloc(AstNode::from(node.value.clone()));
        if let Some(p) = parent {
            nodes[*p].append(n);
        }
        nodes.push(n);
    }
    let mut html = Vec::new();
    comrak::format_html(nodes[0], &options.to_comrak(), &mut html).ok().map(|_| html)
}

/// Parses markdown into a tree.
pub fn parse_document(contents: &str, options: Options) -> (r: Tree)
    ensures
        r@ == parsed_markdown(contents@, options),
        well_formed(r@),
        no_tables(r@),
        (forall|k: int| 0 <= k < r@.len() ==> !(#[trigger] r@[k].item is FootnoteReference)) ==> (
        forall|k: int| 0 <= k < r@.len() ==> !(#[trigger] r@[k].item is FootnoteDefinition)),
{
    comrak_parse(contents, options)
}

/// Renders a tree as HTML text. Fails, with an encoding error, exactly where
/// a footnote reference's tag, or the HTML, is not UTF-8.
pub fn render_html(tree: &Tree, options: Options) -> (r: Result<String, Error>)
    requires
        well_formed(tree@),
        no_tables(tree@),
    ensures
        r is Ok <==> reference_tags_utf8(tree@) && valid_utf8(rendered_html(tree@, options)),
        r matches Ok(h) ==> h@ == decode_utf8(rendered_html(tree@, options)),
        r matches Err(e) ==> e is EncodingError,
{
    if !references_are_utf8(tree) {
        return Err(Error::EncodingError);
    }
    let parents = parents_of(tree);
    let html = format_html(tree, &parents, options).unwrap();
    match string_from_utf8(html) {
        Some(text) => Ok(text),
        None => Err(Error::EncodingError),
    }
}

pub open spec fn is_title(item: Item) -> bool {
    item matches Item::Heading(h) && h.level == 1
}

/// The first level-one heading at or after `k`.
pub open spec fn first_title_from(s: Seq<NodeView>, k: int) -> Option<int>
    decreases s.len() - k,
{
    if k < 0 || k >= s.len() {
        None
    } else if is_title(s[k].item) {
        Some(k)
    } else {
        first_title_from(s, k + 1)
    }
}

pub open spec fn text_of(item: Item) -> Seq<u8> {
    match item {
        Item::Text(t) => t,
        _ => seq![],
    }
}

/// The text nodes of `s[lo..hi]`, joined.
pub open spec fn text_between(s: Seq<NodeView>, lo: int, hi: int) -> Seq<u8>
    decreases hi - lo,
{
    if hi <= lo {
        seq![]
    } else {
        text_between(s, lo, hi - 1) + text_of(s[hi - 1].item)
    }
}

/// The joined text below the first level-one heading, if there is one.
pub open spec fn title_bytes(s: Seq<NodeView>) -> Option<Seq<u8>> {
    match first_title_from(s, 0) {
        Some(i) => Some(text_between(s, i + 1, subtree_end(s, i))),
        None => None,
    }
}

/// The title of a document: the text of its first level-one heading, where
/// that text is UTF-8.
pub open spec fn title_of(s: Seq<NodeView>) -> Option<Seq<char>> {
    match title_bytes(s) {
        Some(b) => if valid_utf8(b) {
            Some(decode_utf8(b))
        } else {
            None
        },
        None => None,
    }
}

/// Finds the title of a post: the text of its first level-one heading.
pub fn find_title(tree: &Tree) -> (r: Option<String>)
    ensures
        r is Some <==> title_of(tree@) is Some,
        r matches Some(t) ==> title_of(tree@) == Some(t@),
{
    let ghost s = tree@;
    let nodes = &tree.nodes;
    let n = nodes.len();
    assert(s.len() == n);
    let mut k: usize = 0;
    while k < n && !heading_level_one(&nodes[k])
        invariant
            s == views(nodes@),
            n == nodes@.len(),
            k <= n,
            first_title_from(s, 0) == first_title_from(s, k as int),
        decreases n - k,
    {
        assert(s[k as int] == nodes@[k as int]@);
        k = k + 1;
    }
    if k == n {
        return None;
    }
    proof {
        lemma_subtree_end(s, k as int);
    }
    let end = subtree_end_of(nodes, k);
    let mut text: Vec<u8> = Vec::new();
    let mut j: usize = k + 1;
    while j < end
        invariant
            s == views(nodes@),
            n == nodes@.len(),
            k < j <= end <= n,
            text@ == text_between(s, k + 1, j as int),
        decreases end - j,
    {
        match &nodes[j].value {
            NodeValue::Text(t) => append_bytes(&mut text, t.as_slice()),
            _ => {},
        }
        assert(s[j as int] == nodes@[j as int]@);
        j = j + 1;
    }
    string_from_utf8(text)
}

fn heading_level_one(n: &Node) -> (r: bool)
    ensures
        r == is_title(n@.item),
{
    match &n.value {
        NodeValue::Heading(h) => h.level == 1,
        _ => false,
    }
}

} // verus!

use vstd::prelude::*;
use vstd::string::StringSliceAdditionalSpecFns;
use vstd::utf8::valid_utf8;

use comrak::nodes::NodeValue;

use crate::bytes::{append_bytes, bytes_equal, copy_bytes, is_utf8};
use crate::markdown::{
    first_title_from, format_html, is_title, note_options, note_options_spec, rendered_html, title_of,
};
use crate::posts::Error;
use crate::tree::{
    is_table_part, lemma_subtree_end, no_tables, parents_of, steps_down_by_one, subtree_end, subtree_end_of, views, well_formed,
    Item, Node, NodeView, Tree,
};

verus! {

broadcast use crate::tree::lemma_views;

pub open spec fn is_definition(n: NodeView) -> bool {
    n.item is FootnoteDefinition
}

/// Splits a sequence of nodes into what stays once every footnote definition
/// is detached, and the detached definitions (each with its subtree), in
/// document order.
pub open spec fn strip(s: Seq<NodeView>) -> (Seq<NodeView>, Seq<Seq<NodeView>>)
    decreases s.len() via strip_decreases
{
    if s.len() == 0 {
        (seq![], seq![])
    } else if is_definition(s[0]) {
        let j = subtree_end(s, 0);
        let rest = strip(s.skip(j));
        (rest.0, seq![s.take(j)] + rest.1)
    } else {
        let rest = strip(s.skip(1));
        (seq![s[0]] + rest.0, rest.1)
    }
}

#[via_fn]
proof fn strip_decreases(s: Seq<NodeView>) {
    if s.len() > 0 {
        lemma_subtree_end(s, 0);
    }
}

pub open spec fn tag_of(item: Item) -> Seq<u8> {
    match item {
        Item::FootnoteDefinition(t) => t,
        Item::FootnoteReference(t) => t,
        _ => seq![],
    }
}

/// A definition has at most one child: no node past the first child sits at
/// the child's level.
pub open spec fn single_child(def: Seq<NodeView>) -> bool {
    forall|k: int| 2 <= k < def.len() ==> #[trigger] def[k].depth != def[0].depth + 1
}

pub open spec fn document_node() -> NodeView {
    NodeView { item: Item::Document, depth: 0 }
}

/// The content of a definition as a document of its own: the children of its
/// one child (the paragraph), under a fresh root.
pub open spec fn fragment(def: Seq<NodeView>) -> Seq<NodeView> {
    if def.len() <= 2 {
        seq![document_node()]
    } else {
        seq![document_node()] + def.skip(2).map_values(
            |n: NodeView| NodeView { item: n.item, depth: (n.depth - def[0].depth - 1) as nat },
        )
    }
}

pub open spec fn open_label() -> Seq<u8> {
    "<span><label class=\"margin-toggle sidenote-number\" for=\"sn-".spec_bytes()
}

pub open spec fn open_input() -> Seq<u8> {
    "\"></label><input class=\"margin-toggle\" id=\"sn-".spec_bytes()
}

pub open spec fn open_note() -> Seq<u8> {
    "\" type=\"checkbox\"/><span class=\"sidenote\">".spec_bytes()
}

pub open spec fn close_note() -> Seq<u8> {
    "</span></span>".spec_bytes()
}

/// The sidenote markup for a tag and the HTML of its content.
pub open spec fn sidenote_markup(tag: Seq<u8>, html: Seq<u8>) -> Seq<u8> {
    open_label() + tag + open_input() + tag + open_note() + html + close_note()
}

/// The markup of the last note for `tag`, if there is one.
pub open spec fn note_for(notes: Seq<(Seq<u8>, Seq<u8>)>, tag: Seq<u8>) -> Option<Seq<u8>>
    decreases notes.len(),
{
    if notes.len() == 0 {
        None
    } else if notes.last().0 == tag {
        Some(notes.last().1)
    } else {
        note_for(notes.drop_last(), tag)
    }
}

pub open spec fn replace_item(item: Item, notes: Seq<(Seq<u8>, Seq<u8>)>) -> Item {
    match item {
        Item::FootnoteReference(t) => match note_for(notes, t) {
            Some(h) => Item::HtmlInline(h),
            None => item,
        },
        _ => item,
    }
}

/// Every footnote reference that has a note takes the note's markup in its place.
pub open spec fn replaced(s: Seq<NodeView>, notes: Seq<(Seq<u8>, Seq<u8>)>) -> Seq<NodeView> {
    s.map_values(|n: NodeView| NodeView { item: replace_item(n.item, notes), depth: n.depth })
}

pub open spec fn notes_view(notes: Seq<(Vec<u8>, Vec<u8>)>) -> Seq<(Seq<u8>, Seq<u8>)> {
    notes.map_values(|p: (Vec<u8>, Vec<u8>)| (p.0@, p.1@))
}

pub open spec fn subtree_views(defs: Seq<Vec<Node>>) -> Seq<Seq<NodeView>> {
    defs.map_values(|d: Vec<Node>| views(d@))
}

/// Detaches every footnote definition from the nodes, and returns what is left
/// and the definitions, in document order.
pub fn detach_footnote_definitions(nodes: Vec<Node>) -> (r: (Vec<Node>, Vec<Vec<Node>>))
    ensures
        views(r.0@) == strip(views(nodes@)).0,
        subtree_views(r.1@) == strip(views(nodes@)).1,
{
    let ghost s = views(nodes@);
    let mut src = nodes;
    let mut kept: Vec<Node> = Vec::new();
    let mut defs: Vec<Vec<Node>> = Vec::new();
    assert(views(kept@) + strip(views(src@)).0 =~= strip(s).0);
    assert(subtree_views(defs@) + strip(views(src@)).1 =~= strip(s).1);
    while src.len() > 0
        invariant
            views(kept@) + strip(views(src@)).0 == strip(s).0,
            subtree_views(defs@) + strip(views(src@)).1 == strip(s).1,
        decreases src@.len(),
    {
        let ghost v = views(src@);
        if definition_node(&src[0]) {
            let j = subtree_end_of(&src, 0);
            let rest = src.split_off(j);
            assert(views(rest@) =~= v.skip(j as int));
            assert(views(src@) =~= v.take(j as int));
            defs.push(src);
            assert(subtree_views(defs@) =~= subtree_views(defs@.drop_last()) + seq![v.take(j as int)]);
            assert(subtree_views(defs@) + strip(views(rest@)).1 =~= strip(s).1);
            src = rest;
        } else {
            let node = src.remove(0);
            assert(views(src@) =~= v.skip(1));
            kept.push(node);
            assert(views(kept@) =~= views(kept@.drop_last()) + seq![v[0]]);
            assert(views(kept@) + strip(views(src@)).0 =~= strip(s).0);
        }
    }
    assert(views(src@) =~= seq![]);
    assert(views(kept@) =~= strip(s).0);
    assert(subtree_views(defs@) =~= strip(s).1);
    (kept, defs)
}

fn definition_node(n: &Node) -> (r: bool)
    ensures
        r == is_definition(n@),
{
    match &n.value {
        NodeValue::FootnoteDefinition(_) => true,
        _ => false,
    }
}


/// A run of nodes that is one subtree: a root, then nodes deeper than it, in
/// steps of at most one level.
pub open spec fn is_subtree(d: Seq<NodeView>) -> bool {
    &&& d.len() > 0
    &&& forall|m: int| 1 <= m < d.len() ==> #[trigger] d[m].depth > d[0].depth
    &&& steps_down_by_one(d)
}

/// What stripping keeps is still stepwise, starts no deeper, holds no
/// definition and no node shallower than before; what it detaches are
/// subtrees rooted at definitions.
pub proof fn lemma_strip(s: Seq<NodeView>, prev: nat, lo: nat)
    requires
        steps_down_by_one(s),
        s.len() > 0 ==> s[0].depth <= prev + 1,
        forall|k: int| 0 <= k < s.len() ==> #[trigger] s[k].depth >= lo,
    ensures
        steps_down_by_one(strip(s).0),
        strip(s).0.len() > 0 ==> strip(s).0[0].depth <= prev + 1,
        forall|k: int| 0 <= k < strip(s).0.len() ==> !is_definition(#[trigger] strip(s).0[k]),
        forall|k: int| 0 <= k < strip(s).0.len() ==> #[trigger] strip(s).0[k].depth >= lo,
        forall|k: int|
            0 <= k < strip(s).1.len() ==> is_subtree(#[trigger] strip(s).1[k]) && is_definition(
                strip(s).1[k][0],
            ),
    decreases s.len(),
{
    if s.len() > 0 {
        if is_definition(s[0]) {
            let j = subtree_end(s, 0);
            lemma_subtree_end(s, 0);
            let t = s.skip(j);
            assert(steps_down_by_one(t)) by {
                assert forall|k: int| 0 < k < t.len() implies #[trigger] t[k].depth <= t[k - 1].depth
                    + 1 by {
                    assert(t[k] == s[j + k] && t[k - 1] == s[j + k - 1]);
                }
            }
            lemma_strip(t, prev, lo);
            let d = s.take(j);
            assert(is_subtree(d));
            let r = strip(s);
            assert(r.1 == seq![d] + strip(t).1);
            assert forall|k: int| 0 <= k < r.1.len() implies is_subtree(#[trigger] r.1[k])
                && is_definition(r.1[k][0]) by {
                if k > 0 {
                    assert(r.1[k] == strip(t).1[k - 1]);
                }
            }
        } else {
            let t = s.skip(1);
            assert(steps_down_by_one(t)) by {
                assert forall|k: int| 0 < k < t.len() implies #[trigger] t[k].depth <= t[k - 1].depth
                    + 1 by {
                    assert(t[k] == s[1 + k] && t[k - 1] == s[k]);
                }
            }
            lemma_strip(t, s[0].depth, lo);
            let r = strip(s);
            let q = strip(t).0;
            assert(r.0 == seq![s[0]] + q);
            assert forall|k: int| 0 < k < r.0.len() implies #[trigger] r.0[k].depth <= r.0[k
                - 1].depth + 1 by {
                assert(r.0[k] == q[k - 1]);
                if k > 1 {
                    assert(r.0[k - 1] == q[k - 2]);
                }
            }
            assert forall|k: int| 0 <= k < r.0.len() implies !is_definition(#[trigger] r.0[k])
                && r.0[k].depth >= lo by {
                if k > 0 {
                    assert(r.0[k] == q[k - 1]);
                }
            }
        }
    }
}

/// Detaching the definitions of a well-formed tree leaves a well-formed tree.
pub proof fn lemma_strip_well_formed(s: Seq<NodeView>)
    requires
        well_formed(s),
    ensures
        well_formed(strip(s).0),
        forall|k: int| 0 <= k < strip(s).0.len() ==> !is_definition(#[trigger] strip(s).0[k]),
        forall|k: int|
            0 <= k < strip(s).1.len() ==> is_subtree(#[trigger] strip(s).1[k]) && is_definition(
                strip(s).1[k][0],
            ),
{
    let t = s.skip(1);
    assert(steps_down_by_one(t)) by {
        assert forall|k: int| 0 < k < t.len() implies #[trigger] t[k].depth <= t[k - 1].depth
            + 1 by {
            assert(t[k] == s[1 + k] && t[k - 1] == s[k]);
        }
    }
    assert forall|k: int| 0 <= k < t.len() implies #[trigger] t[k].depth >= 1 by {
        assert(t[k] == s[1 + k]);
    }
    lemma_strip(s, 0, 0);
    lemma_strip(t, 0, 1);
    let r = strip(s);
    let q = strip(t).0;
    assert(r.0 == seq![s[0]] + q);
    assert forall|k: int| 1 <= k < r.0.len() implies #[trigger] r.0[k].depth >= 1 by {
        assert(r.0[k] == q[k - 1]);
    }
}

/// The fragment of a definition with a single child is a well-formed tree.
pub proof fn lemma_fragment_well_formed(def: Seq<NodeView>)
    requires
        is_subtree(def),
        single_child(def),
    ensures
        well_formed(fragment(def)),
{
    let f = fragment(def);
    let d = def[0].depth;
    if def.len() > 2 {
        assert forall|m: int| 2 <= m < def.len() implies #[trigger] def[m].depth >= d + 2 by {
            assert(def[m].depth > d);
        }
        assert forall|k: int| 1 <= k < f.len() implies #[trigger] f[k].depth >= 1
            && f[k].depth == def[k + 1].depth - d - 1 by {
            assert(def[k + 1].depth >= d + 2);
        }
        assert(def[1].depth == d + 1) by {
            assert(def[1].depth > d);
        }
        assert forall|k: int| 0 < k < f.len() implies #[trigger] f[k].depth <= f[k - 1].depth
            + 1 by {
            assert(def[k + 1].depth <= def[k].depth + 1);
        }
    }
}

/// Detaching definitions brings in no table node.
pub proof fn lemma_strip_no_tables(s: Seq<NodeView>)
    requires
        no_tables(s),
    ensures
        no_tables(strip(s).0),
        forall|k: int| 0 <= k < strip(s).1.len() ==> no_tables(#[trigger] strip(s).1[k]),
    decreases s.len(),
{
    if s.len() > 0 {
        if is_definition(s[0]) {
            let j = subtree_end(s, 0);
            lemma_subtree_end(s, 0);
            let t = s.skip(j);
            assert forall|k: int| 0 <= k < t.len() implies !is_table_part(#[trigger] t[k].item) by {
                assert(t[k] == s[j + k]);
            }
            lemma_strip_no_tables(t);
            let d = s.take(j);
            assert forall|k: int| 0 <= k < d.len() implies !is_table_part(#[trigger] d[k].item) by {
                assert(d[k] == s[k]);
            }
            let r = strip(s);
            assert forall|k: int| 0 <= k < r.1.len() implies no_tables(#[trigger] r.1[k]) by {
                if k > 0 {
                    assert(r.1[k] == strip(t).1[k - 1]);
                }
            }
        } else {
            let t = s.skip(1);
            assert forall|k: int| 0 <= k < t.len() implies !is_table_part(#[trigger] t[k].item) by {
                assert(t[k] == s[k + 1]);
            }
            lemma_strip_no_tables(t);
            let r = strip(s);
            let q = strip(t).0;
            assert forall|k: int| 0 <= k < r.0.len() implies !is_table_part(#[trigger] r.0[k].item) by {
                if k > 0 {
                    assert(r.0[k] == q[k - 1]);
                }
            }
        }
    }
}

proof fn lemma_fragment_no_tables(def: Seq<NodeView>)
    requires
        def.len() > 0,
    ensures
        no_tables(def) ==> no_tables(fragment(def)),
{
    if no_tables(def) && def.len() > 2 {
        let f = fragment(def);
        assert forall|k: int| 0 <= k < f.len() implies !is_table_part(#[trigger] f[k].item) by {
            if k > 0 {
                assert(f[k].item == def[k + 1].item);
            }
        }
    }
}

/// The content of a footnote definition as a document of its own, or `None`
/// where the definition has more than one child.
pub fn definition_fragment(def: Vec<Node>) -> (r: Option<Tree>)
    requires
        is_subtree(views(def@)),
    ensures
        r is Some <==> single_child(views(def@)),
        r matches Some(t) ==> t@ == fragment(views(def@)) && well_formed(t@),
        r matches Some(t) ==> (no_tables(views(def@)) ==> no_tables(t@)),
{
    let ghost s = views(def@);
    let d = def[0].depth;
    let n = def.len();
    let mut k: usize = 2;
    while k < n
        invariant
            n == def@.len(),
            s == views(def@),
            is_subtree(s),
            d == s[0].depth,
            2 <= k,
            forall|m: int| 2 <= m < k && m < n ==> #[trigger] s[m].depth != d + 1,
        decreases n - k,
    {
        assert(s[k as int].depth > d);
        if def[k].depth - 1 == d {
            return None;
        }
        k = k + 1;
    }
    proof {
        lemma_fragment_well_formed(s);
        lemma_fragment_no_tables(s);
    }
    let mut out: Vec<Node> = Vec::new();
    out.push(Node { value: NodeValue::Document, depth: 0 });
    if n <= 2 {
        assert(views(out@) =~= fragment(s));
        return Some(Tree { nodes: out });
    }
    let mut src = def;
    let mut rest = src.split_off(2);
    let ghost f = fragment(s);
    let mut i: usize = 0;
    while rest.len() > 0
        invariant
            n == s.len(),
            n > 2,
            f == fragment(s),
            d == s[0].depth,
            single_child(s),
            is_subtree(s),
            2 + i <= n,
            views(rest@) == s.skip(2 + i),
            out@.len() == 1 + i,
            views(out@)[0] == document_node(),
            forall|m: int| 0 <= m < 1 + i ==> #[trigger] views(out@)[m] == f[m],
        decreases rest@.len(),
    {
        let ghost v = views(rest@);
        let ghost before = out@;
        assert(v.len() > 0);
        assert(v[0] == rest@[0]@);
        let node = rest.remove(0);
        assert(v[0] == s[2 + i]);
        assert(node@ == s[2 + i]);
        assert(s[2 + i].depth > d && s[2 + i].depth != d + 1);
        out.push(Node { value: node.value, depth: node.depth - d - 1 });
        assert(views(rest@) =~= s.skip(2 + i + 1));
        assert(f[1 + i] == NodeView { item: s[2 + i].item, depth: (s[2 + i].depth - d - 1) as nat });
        assert forall|m: int| 0 <= m < 1 + i + 1 implies #[trigger] views(out@)[m] == f[m] by {
            if m < 1 + i {
                assert(out@[m] == before[m]);
                assert(views(before)[m] == before[m]@);
            } else {
                assert(out@[m]@ == NodeView { item: s[2 + i].item, depth: (s[2 + i].depth - d - 1) as nat });
            }
        }
        i = i + 1;
    }
    assert(views(out@).len() == f.len());
    assert(views(out@) =~= f);
    Some(Tree { nodes: out })
}

/// Whether every footnote reference's tag is UTF-8.
pub open spec fn reference_tags_utf8(s: Seq<NodeView>) -> bool {
    forall|k: int|
        0 <= k < s.len() ==> (#[trigger] s[k].item matches Item::FootnoteReference(t) ==> valid_utf8(
            t,
        ))
}

pub fn references_are_utf8(tree: &Tree) -> (r: bool)
    ensures
        r == reference_tags_utf8(tree@),
{
    let ghost s = tree@;
    let n = tree.nodes.len();
    let mut k: usize = 0;
    while k < n
        invariant
            s == views(tree.nodes@),
            n == s.len(),
            k <= n,
            forall|m: int|
                0 <= m < k ==> (#[trigger] s[m].item matches Item::FootnoteReference(t) ==> valid_utf8(
                    t,
                )),
        decreases n - k,
    {
        assert(s[k as int] == tree.nodes@[k as int]@);
        match &tree.nodes[k].value {
            NodeValue::FootnoteReference(t) => {
                if !is_utf8(t.as_slice()) {
                    assert(s[k as int].item == Item::FootnoteReference(t@));
                    return false;
                }
            },
            _ => {},
        }
        k = k + 1;
    }
    true
}

/// Wraps the HTML of a footnote's content in sidenote markup for its tag.
pub fn render_sidenote_html(name: Vec<u8>, html: Vec<u8>) -> (r: Result<Vec<u8>, Error>)
    ensures
        r is Ok <==> valid_utf8(name@) && valid_utf8(html@),
        r matches Ok(b) ==> b@ == sidenote_markup(name@, html@),
        r matches Err(e) ==> e is EncodingError,
{
    if !is_utf8(name.as_slice()) || !is_utf8(html.as_slice()) {
        return Err(Error::EncodingError);
    }
    let mut out: Vec<u8> = Vec::new();
    append_bytes(&mut out, "<span><label class=\"margin-toggle sidenote-number\" for=\"sn-".as_bytes());
    append_bytes(&mut out, name.as_slice());
    append_bytes(&mut out, "\"></label><input class=\"margin-toggle\" id=\"sn-".as_bytes());
    append_bytes(&mut out, name.as_slice());
    append_bytes(&mut out, "\" type=\"checkbox\"/><span class=\"sidenote\">".as_bytes());
    append_bytes(&mut out, html.as_slice());
    append_bytes(&mut out, "</span></span>".as_bytes());
    Ok(out)
}

/// The sidenote markup for a footnote definition whose content renders.
pub open spec fn definition_markup(def: Seq<NodeView>) -> Seq<u8> {
    sidenote_markup(tag_of(def[0].item), rendered_html(fragment(def), note_options_spec()))
}

/// A detached definition renders: it has one child, and its tag, the tags
/// of the references in its content and the HTML of its content are UTF-8.
pub open spec fn note_renders(d: Seq<NodeView>) -> bool {
    &&& single_child(d)
    &&& valid_utf8(tag_of(d[0].item))
    &&& reference_tags_utf8(fragment(d))
    &&& valid_utf8(rendered_html(fragment(d), note_options_spec()))
}

/// Renders a detached footnote definition as sidenote markup.
pub fn render_footnode_definition_as_sidenote(tag: &Vec<u8>, def: Vec<Node>) -> (r: Result<Vec<u8>, Error>)
    requires
        is_subtree(views(def@)),
        no_tables(views(def@)),
        tag@ == tag_of(views(def@)[0].item),
    ensures
        r is Ok <==> note_renders(views(def@)),
        r matches Ok(b) ==> b@ == definition_markup(views(def@)),
        r matches Err(e) ==> (e is StructuralError <==> !single_child(views(def@))),
        r matches Err(e) ==> e is StructuralError || e is EncodingError,
{
    let ghost s = views(def@);
    let fragment = match definition_fragment(def) {
        Some(t) => t,
        None => return Err(Error::StructuralError(copy_bytes(tag.as_slice()))),
    };
    if !references_are_utf8(&fragment) {
        return Err(Error::EncodingError);
    }
    let parents = parents_of(&fragment);
    let html = format_html(&fragment, &parents, note_options()).unwrap();
    render_sidenote_html(copy_bytes(tag.as_slice()), html)
}

/// Finds the last note for `tag`.
fn find_note(notes: &Vec<(Vec<u8>, Vec<u8>)>, tag: &Vec<u8>) -> (r: Option<usize>)
    ensures
        match note_for(notes_view(notes@), tag@) {
            None => r is None,
            Some(h) => r matches Some(i) && i < notes@.len() && notes@[i as int].1@ == h,
        },
{
    let ghost nv = notes_view(notes@);
    let mut i: usize = notes.len();
    assert(nv.take(i as int) =~= nv);
    while i > 0
        invariant
            nv == notes_view(notes@),
            i <= notes@.len(),
            note_for(nv, tag@) == note_for(nv.take(i as int), tag@),
        decreases i,
    {
        let ghost t = nv.take(i as int);
        assert(t.last() == nv[i - 1]);
        if bytes_equal(notes[i - 1].0.as_slice(), tag.as_slice()) {
            return Some(i - 1);
        }
        assert(t.drop_last() =~= nv.take(i - 1));
        i = i - 1;
    }
    None
}

/// Puts each note's markup in place of every footnote reference to its tag;
/// references without a note stay as they are.
pub fn replace_footnote_references(tree: &mut Tree, notes: &Vec<(Vec<u8>, Vec<u8>)>)
    ensures
        final(tree)@ == replaced(old(tree)@, notes_view(notes@)),
{
    let ghost s0 = tree@;
    let ghost want = replaced(s0, notes_view(notes@));
    let n = tree.nodes.len();
    let mut k: usize = 0;
    while k < n
        invariant
            s0.len() == n,
            want == replaced(s0, notes_view(notes@)),
            tree.nodes@.len() == n,
            k <= n,
            forall|m: int| 0 <= m < k ==> #[trigger] views(tree.nodes@)[m] == want[m],
            forall|m: int| k <= m < n ==> #[trigger] views(tree.nodes@)[m] == s0[m],
        decreases n - k,
    {
        assert(views(tree.nodes@)[k as int] == tree.nodes@[k as int]@);
        let found = match &tree.nodes[k].value {
            NodeValue::FootnoteReference(t) => find_note(notes, t),
            _ => None,
        };
        let ghost before = tree.nodes@;
        match found {
            Some(i) => {
                let d = tree.nodes[k].depth;
                let h = copy_bytes(notes[i].1.as_slice());
                tree.nodes.set(k, Node { value: NodeValue::HtmlInline(h), depth: d });
            },
            None => {},
        }
        assert(views(tree.nodes@)[k as int] == want[k as int]);
        assert forall|m: int| 0 <= m < n && m != k implies #[trigger] views(tree.nodes@)[m]
            == views(before)[m] by {
            assert(tree.nodes@[m] == before[m]);
        }
        k = k + 1;
    }
    assert(tree@ =~= want);
}

/// The notes for detached definitions, in the order they were detached.
pub open spec fn notes_of(defs: Seq<Seq<NodeView>>) -> Seq<(Seq<u8>, Seq<u8>)> {
    defs.map_values(|d: Seq<NodeView>| (tag_of(d[0].item), definition_markup(d)))
}

/// The tree once footnote definitions are detached and every reference to a
/// defined tag carries that definition's sidenote markup.
pub open spec fn sidenoted(s: Seq<NodeView>) -> Seq<NodeView> {
    replaced(strip(s).0, notes_of(strip(s).1))
}

/// Turns the footnotes of a tree into sidenotes: each definition is detached
/// and rendered on its own, and every reference to its tag takes a copy of
/// the markup. Where a tag is defined twice, the later definition wins for
/// the references; every definition is detached and rendered, so an earlier
/// duplicate leaves no footnote section behind, and one with more than one
/// child fails the render like any other.
pub fn render(tree: Tree) -> (r: Result<Tree, Error>)
    requires
        well_formed(tree@),
        no_tables(tree@),
    ensures
        r is Ok <==> forall|k: int|
            0 <= k < strip(tree@).1.len() ==> note_renders(#[trigger] strip(tree@).1[k]),
        r matches Ok(t) ==> t@ == sidenoted(tree@) && well_formed(t@) && no_tables(t@),
        (exists|k: int|
            0 <= k < strip(tree@).1.len() && !single_child(#[trigger] strip(tree@).1[k])) ==> r is Err,
        r matches Err(Error::StructuralError(_)) ==> exists|k: int|
            0 <= k < strip(tree@).1.len() && !single_child(#[trigger] strip(tree@).1[k]),
{
    let ghost s = tree@;
    proof {
        lemma_strip_well_formed(s);
        lemma_strip_no_tables(s);
    }
    let (kept, defs) = detach_footnote_definitions(tree.nodes);
    let ghost all = strip(s).1;
    let mut defs = defs;
    let mut notes: Vec<(Vec<u8>, Vec<u8>)> = Vec::new();
    let ghost mut i: int = 0;
    while defs.len() > 0
        invariant
            s == tree@,
            0 <= i <= all.len(),
            all == strip(s).1,
            subtree_views(defs@) == all.skip(i),
            notes_view(notes@) == notes_of(all.take(i)),
            forall|k: int| 0 <= k < all.len() ==> is_subtree(#[trigger] all[k]) && is_definition(all[k][0]),
            forall|k: int| 0 <= k < all.len() ==> no_tables(#[trigger] all[k]),
            forall|k: int| 0 <= k < i ==> note_renders(#[trigger] all[k]),
        decreases defs@.len(),
    {
        let ghost before = defs@;
        assert(subtree_views(before).len() == before.len());
        assert(i < all.len());
        assert(subtree_views(before)[0] == views(before[0]@));
        assert(all.skip(i)[0] == all[i]);
        let def = defs.remove(0);
        assert(views(def@) == all[i]);
        assert(subtree_views(defs@) =~= all.skip(i + 1)) by {
            assert(subtree_views(defs@).len() == defs@.len());
            assert forall|m: int| 0 <= m < defs@.len() implies #[trigger] subtree_views(defs@)[m]
                == all.skip(i + 1)[m] by {
                assert(defs@[m] == before[m + 1]);
                assert(subtree_views(before)[m + 1] == views(before[m + 1]@));
                assert(all.skip(i)[m + 1] == all[i + 1 + m]);
            }
        }
        assert(views(def@)[0] == def@[0]@);
        assert(is_subtree(all[i]));
        let tag = match &def[0].value {
            NodeValue::FootnoteDefinition(t) => copy_bytes(t.as_slice()),
            _ => Vec::new(),
        };
        let ghost dv = views(def@);
        assert(dv == strip(s).1[i] && 0 <= i < strip(s).1.len());
        let markup = match render_footnode_definition_as_sidenote(&tag, def) {
            Ok(b) => b,
            Err(e) => {
                proof {
                    assert(!note_renders(strip(s).1[i]));
                    if e is StructuralError {
                        assert(!single_child(strip(s).1[i]));
                        assert(exists|k: int|
                            0 <= k < strip(s).1.len() && !single_child(#[trigger] strip(s).1[k]));
                    }
                }
                return Err(e);
            },
        };
        let ghost earlier = notes@;
        assert(notes_view(earlier).len() == earlier.len());
        notes.push((tag, markup));
        assert(notes_view(notes@) =~= notes_of(all.take(i + 1))) by {
            assert(notes_view(notes@).len() == notes@.len());
            assert forall|m: int| 0 <= m < i + 1 implies #[trigger] notes_view(notes@)[m]
                == notes_of(all.take(i + 1))[m] by {
                assert(all.take(i + 1)[m] == all[m]);
                if m < i {
                    assert(notes@[m] == earlier[m]);
                    assert(notes_view(earlier)[m] == notes_of(all.take(i))[m]);
                    assert(all.take(i)[m] == all[m]);
                }
            }
        }
        proof {
            i = i + 1;
        }
    }
    assert(all.take(i) =~= all);
    let mut out = Tree { nodes: kept };
    replace_footnote_references(&mut out, &notes);
    proof {
        let t = out@;
        let k0 = strip(s).0;
        assert(t[0] == k0[0]);
        assert forall|k: int| 0 <= k < t.len() implies #[trigger] t[k].depth == k0[k].depth
            && (!is_table_part(k0[k].item) ==> !is_table_part(t[k].item)) by {}
    }
    Ok(out)
}


/// Without definitions, nothing is detached.
pub proof fn lemma_strip_nothing_defined(s: Seq<NodeView>)
    requires
        forall|k: int| 0 <= k < s.len() ==> !is_definition(#[trigger] s[k]),
    ensures
        strip(s).0 == s,
        strip(s).1 == Seq::<Seq<NodeView>>::empty(),
    decreases s.len(),
{
    if s.len() > 0 {
        let t = s.skip(1);
        assert forall|k: int| 0 <= k < t.len() implies !is_definition(#[trigger] t[k]) by {
            assert(t[k] == s[k + 1]);
        }
        lemma_strip_nothing_defined(t);
        assert(seq![s[0]] + t =~= s);
    }
}

proof fn lemma_no_title_from(s: Seq<NodeView>, k: int)
    requires
        0 <= k,
        forall|m: int| 0 <= m < s.len() ==> !is_title(#[trigger] s[m].item),
    ensures
        first_title_from(s, k) is None,
    decreases s.len() - k,
{
    if k < s.len() {
        lemma_no_title_from(s, k + 1);
    }
}

/// A document without footnotes and without a level-one heading has no
/// title, and turning footnotes into sidenotes leaves it as it is.
pub proof fn lemma_plain_document(s: Seq<NodeView>)
    requires
        forall|k: int| 0 <= k < s.len() ==> !is_definition(#[trigger] s[k]),
        forall|k: int| 0 <= k < s.len() ==> !(#[trigger] s[k].item is FootnoteReference),
        forall|k: int| 0 <= k < s.len() ==> !is_title(#[trigger] s[k].item),
    ensures
        title_of(s) is None,
        sidenoted(s) == s,
{
    lemma_no_title_from(s, 0);
    lemma_strip_nothing_defined(s);
    let notes = notes_of(strip(s).1);
    assert(notes =~= Seq::<(Seq<u8>, Seq<u8>)>::empty());
    assert(replaced(s, notes) =~= s) by {
        assert forall|k: int| 0 <= k < s.len() implies #[trigger] replaced(s, notes)[k] == s[k] by {
            assert(replace_item(s[k].item, notes) == s[k].item);
        }
    }
}

/// The note for a tag is the markup of its last definition: where a tag is
/// defined twice, the later definition wins.
pub proof fn lemma_last_definition_wins(defs: Seq<Seq<NodeView>>, tag: Seq<u8>, i: int)
    requires
        0 <= i < defs.len(),
        tag_of(defs[i][0].item) == tag,
        forall|j: int| i < j < defs.len() ==> tag_of((#[trigger] defs[j])[0].item) != tag,
    ensures
        note_for(notes_of(defs), tag) == Some(definition_markup(defs[i])),
    decreases defs.len(),
{
    let notes = notes_of(defs);
    let init = defs.drop_last();
    assert(notes.drop_last() =~= notes_of(init));
    if i < defs.len() - 1 {
        assert forall|j: int| i < j < init.len() implies tag_of((#[trigger] init[j])[0].item) != tag by {
            assert(init[j] == defs[j]);
        }
        assert(init[i] == defs[i]);
        lemma_last_definition_wins(init, tag, i);
        assert(notes.last().0 != tag) by {
            assert(tag_of(defs[defs.len() - 1][0].item) != tag);
        }
    }
}

/// A tag without a definition has no note.
pub proof fn lemma_undefined_tag(defs: Seq<Seq<NodeView>>, tag: Seq<u8>)
    requires
        forall|j: int| 0 <= j < defs.len() ==> tag_of((#[trigger] defs[j])[0].item) != tag,
    ensures
        note_for(notes_of(defs), tag) is None,
    decreases defs.len(),
{
    if defs.len() > 0 {
        let init = defs.drop_last();
        assert(notes_of(defs).drop_last() =~= notes_of(init));
        assert forall|j: int| 0 <= j < init.len() implies tag_of((#[trigger] init[j])[0].item) != tag by {
            assert(init[j] == defs[j]);
        }
        lemma_undefined_tag(init, tag);
    }
}

/// Where `tag` is defined, every reference to it takes, in its own place, a
/// copy of the last definition's sidenote markup, so two references give two
/// identical sidenotes with the same `sn-` ids; no reference to the tag is
/// left. Where it is not defined, its references stay as they are.
pub proof fn lemma_sidenote_references(s: Seq<NodeView>, tag: Seq<u8>)
    ensures
        ({
            let kept = strip(s).0;
            let defs = strip(s).1;
            let out = sidenoted(s);
            &&& out.len() == kept.len()
            &&& forall|k: int|
                0 <= k < kept.len() ==> (#[trigger] out[k]).depth == kept[k].depth
            &&& forall|i: int|
                0 <= i < defs.len() && tag_of((#[trigger] defs[i])[0].item) == tag && (forall|j: int|
                    i < j < defs.len() ==> tag_of((#[trigger] defs[j])[0].item) != tag) ==> {
                    &&& forall|k: int|
                        0 <= k < kept.len() && kept[k].item == Item::FootnoteReference(tag) ==> (
                        #[trigger] out[k]).item == Item::HtmlInline(definition_markup(defs[i]))
                    &&& forall|k: int|
                        0 <= k < out.len() ==> (#[trigger] out[k]).item != Item::FootnoteReference(tag)
                }
            &&& (forall|j: int| 0 <= j < defs.len() ==> tag_of((#[trigger] defs[j])[0].item) != tag)
                ==> forall|k: int|
                0 <= k < kept.len() && kept[k].item == Item::FootnoteReference(tag) ==> (
                #[trigger] out[k]) == kept[k]
        }),
{
    let kept = strip(s).0;
    let defs = strip(s).1;
    let notes = notes_of(defs);
    let out = sidenoted(s);
    assert(out.len() == kept.len());
    assert forall|k: int| 0 <= k < kept.len() implies (#[trigger] out[k]).depth == kept[k].depth
        && out[k].item == replace_item(kept[k].item, notes) by {}
    assert forall|i: int|
        0 <= i < defs.len() && tag_of((#[trigger] defs[i])[0].item) == tag && (forall|j: int|
            i < j < defs.len() ==> tag_of((#[trigger] defs[j])[0].item) != tag) implies {
        &&& forall|k: int|
            0 <= k < kept.len() && kept[k].item == Item::FootnoteReference(tag) ==> (
            #[trigger] out[k]).item == Item::HtmlInline(definition_markup(defs[i]))
        &&& forall|k: int|
            0 <= k < out.len() ==> (#[trigger] out[k]).item != Item::FootnoteReference(tag)
    } by {
        lemma_last_definition_wins(defs, tag, i);
        assert forall|k: int| 0 <= k < out.len() implies (#[trigger] out[k]).item
            != Item::FootnoteReference(tag) by {
            assert(out[k].item == replace_item(kept[k].item, notes));
        }
    }
    if forall|j: int| 0 <= j < defs.len() ==> tag_of((#[trigger] defs[j])[0].item) != tag {
        lemma_undefined_tag(defs, tag);
    }
}
} // verus!

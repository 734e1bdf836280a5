use vstd::prelude::*;

use comrak::nodes::{NodeHeading, NodeValue};

verus! {

/// What a node holds, with byte payloads seen as sequences.
pub enum Item {
    Document,
    Paragraph,
    Heading(NodeHeading),
    Text(Seq<u8>),
    HtmlInline(Seq<u8>),
    FootnoteDefinition(Seq<u8>),
    FootnoteReference(Seq<u8>),
    Other(NodeValue),
}

pub open spec fn item_of(v: NodeValue) -> Item {
    match v {
        NodeValue::Document => Item::Document,
        NodeValue::Paragraph => Item::Paragraph,
        NodeValue::Heading(h) => Item::Heading(h),
        NodeValue::Text(t) => Item::Text(t@),
        NodeValue::HtmlInline(t) => Item::HtmlInline(t@),
        NodeValue::FootnoteDefinition(t) => Item::FootnoteDefinition(t@),
        NodeValue::FootnoteReference(t) => Item::FootnoteReference(t@),
        _ => Item::Other(v),
    }
}

/// A node as the contracts see it.
pub struct NodeView {
    pub item: Item,
    pub depth: nat,
}

/// One node of a syntax tree: its value and its distance from the root.
pub struct Node {
    pub value: NodeValue,
    pub depth: usize,
}

impl View for Node {
    type V = NodeView;

    open spec fn view(&self) -> NodeView {
        NodeView { item: item_of(self.value), depth: self.depth as nat }
    }
}

/// A syntax tree stored as its nodes in document (pre-)order, each with its
/// depth. A node's children are the later nodes one level deeper that come
/// before the next node at its own level or above.
pub struct Tree {
    pub nodes: Vec<Node>,
}

pub open spec fn views(s: Seq<Node>) -> Seq<NodeView> {
    s.map_values(|n: Node| n@)
}

/// The views of the nodes, position by position.
pub broadcast proof fn lemma_views(s: Seq<Node>)
    ensures
        #[trigger] views(s).len() == s.len(),
        forall|k: int| 0 <= k < s.len() ==> views(s)[k] == (#[trigger] s[k])@,
{
}

impl View for Tree {
    type V = Seq<NodeView>;

    open spec fn view(&self) -> Seq<NodeView> {
        views(self.nodes@)
    }
}

/// The sequence describes one tree: a document root at depth 0, every other
/// node below it, and no node more than one level below the node before it.
pub open spec fn well_formed(s: Seq<NodeView>) -> bool {
    &&& s.len() > 0
    &&& s[0].depth == 0
    &&& s[0].item is Document
    &&& forall|k: int| 1 <= k < s.len() ==> #[trigger] s[k].depth >= 1
    &&& steps_down_by_one(s)
}

pub open spec fn steps_down_by_one(s: Seq<NodeView>) -> bool {
    forall|k: int| 0 < k < s.len() ==> #[trigger] s[k].depth <= s[k - 1].depth + 1
}

/// A node of a table, which comrak makes only with its table extension on.
pub open spec fn is_table_part(item: Item) -> bool {
    item matches Item::Other(v) && (v is Table || v is TableRow || v is TableCell)
}

/// The tree holds no table nodes.
pub open spec fn no_tables(s: Seq<NodeView>) -> bool {
    forall|k: int| 0 <= k < s.len() ==> !is_table_part(#[trigger] s[k].item)
}

/// The first position from `j` on that is not below node `i`.
pub open spec fn end_from(s: Seq<NodeView>, i: int, j: int) -> int
    decreases s.len() - j,
{
    if j >= s.len() || s[j].depth <= s[i].depth {
        j
    } else {
        end_from(s, i, j + 1)
    }
}

/// The end of the subtree rooted at `i`: that subtree is `s[i..subtree_end(s, i)]`.
pub open spec fn subtree_end(s: Seq<NodeView>, i: int) -> int {
    end_from(s, i, i + 1)
}

pub proof fn lemma_end_from(s: Seq<NodeView>, i: int, j: int)
    requires
        0 <= i < j <= s.len(),
    ensures
        j <= end_from(s, i, j) <= s.len(),
        forall|k: int| j <= k < end_from(s, i, j) ==> s[k].depth > s[i].depth,
        end_from(s, i, j) < s.len() ==> s[end_from(s, i, j)].depth <= s[i].depth,
    decreases s.len() - j,
{
    if j < s.len() && s[j].depth > s[i].depth {
        lemma_end_from(s, i, j + 1);
    }
}

/// The subtree at `i` holds `i` and the nodes right after it that lie deeper.
pub proof fn lemma_subtree_end(s: Seq<NodeView>, i: int)
    requires
        0 <= i < s.len(),
    ensures
        i < subtree_end(s, i) <= s.len(),
        forall|k: int| i < k < subtree_end(s, i) ==> s[k].depth > s[i].depth,
        subtree_end(s, i) < s.len() ==> s[subtree_end(s, i)].depth <= s[i].depth,
{
    lemma_end_from(s, i, i + 1);
}

/// Where the subtree of `nodes[i]` ends.
pub fn subtree_end_of(nodes: &Vec<Node>, i: usize) -> (r: usize)
    requires
        i < nodes@.len(),
    ensures
        r == subtree_end(views(nodes@), i as int),
        i < r <= nodes@.len(),
{
    let ghost s = views(nodes@);
    proof {
        lemma_subtree_end(s, i as int);
    }
    let d = nodes[i].depth;
    let n = nodes.len();
    let mut j: usize = i + 1;
    while j < n && nodes[j].depth > d
        invariant
            s == views(nodes@),
            n == nodes@.len(),
            d == s[i as int].depth,
            i < j <= nodes@.len(),
            end_from(s, i as int, j as int) == subtree_end(s, i as int),
        decreases nodes@.len() - j,
    {
        j = j + 1;
    }
    j
}


/// The nearest node at or before `j` that lies one level above `depth`.
pub open spec fn parent_from(s: Seq<NodeView>, depth: nat, j: int) -> Option<int>
    decreases j + 1,
{
    if j < 0 {
        None
    } else if s[j].depth + 1 == depth {
        Some(j)
    } else {
        parent_from(s, depth, j - 1)
    }
}

/// The parent of node `k`: the nearest earlier node one level up.
pub open spec fn parent(s: Seq<NodeView>, k: int) -> Option<int> {
    parent_from(s, s[k].depth, k - 1)
}

pub open spec fn index_of(o: Option<usize>) -> Option<int> {
    match o {
        Some(p) => Some(p as int),
        None => None,
    }
}

proof fn lemma_parent_from(s: Seq<NodeView>, depth: nat, j: int)
    requires
        j < s.len(),
    ensures
        parent_from(s, depth, j) matches Some(p) ==> 0 <= p <= j,
    decreases j + 1,
{
    if j >= 0 && s[j].depth + 1 != depth {
        lemma_parent_from(s, depth, j - 1);
    }
}

/// The parent of every node, by position; the root has none.
pub fn parents_of(tree: &Tree) -> (r: Vec<Option<usize>>)
    ensures
        r@.len() == tree@.len(),
        forall|k: int| 0 <= k < tree@.len() ==> index_of(#[trigger] r@[k]) == parent(tree@, k),
        forall|k: int| 0 <= k < tree@.len() ==> (#[trigger] r@[k] matches Some(p) ==> p < k),
{
    let ghost s = tree@;
    let n = tree.nodes.len();
    let mut out: Vec<Option<usize>> = Vec::new();
    let mut k: usize = 0;
    while k < n
        invariant
            s == views(tree.nodes@),
            n == s.len(),
            k <= n,
            out@.len() == k,
            forall|m: int| 0 <= m < k ==> index_of(#[trigger] out@[m]) == parent(s, m),
            forall|m: int| 0 <= m < k ==> (#[trigger] out@[m] matches Some(p) ==> p < m),
        decreases n - k,
    {
        assert(s[k as int] == tree.nodes@[k as int]@);
        let d = tree.nodes[k].depth;
        let mut j: usize = k;
        let mut found: Option<usize> = None;
        proof {
            lemma_parent_from(s, d as nat, k - 1);
        }
        while j > 0 && d > 0 && found.is_none()
            invariant
                s == views(tree.nodes@),
                n == s.len(),
                j <= k < n,
                d == s[k as int].depth,
                found matches Some(p) ==> parent(s, k as int) == Some(p as int) && p < k,
                found is None ==> parent(s, k as int) == parent_from(s, d as nat, j - 1),
            decreases j + (if found is None { 1int } else { 0int }),
        {
            assert(s[j - 1] == tree.nodes@[j - 1]@);
            if tree.nodes[j - 1].depth == d - 1 {
                found = Some(j - 1);
            } else {
                j = j - 1;
            }
        }
        proof {
            if d == 0 && found is None {
                lemma_no_parent_at_root(s, j - 1);
            }
        }
        out.push(found);
        k = k + 1;
    }
    out
}

proof fn lemma_no_parent_at_root(s: Seq<NodeView>, j: int)
    requires
        j < s.len(),
    ensures
        parent_from(s, 0, j) is None,
    decreases j + 1,
{
    if j >= 0 {
        lemma_no_parent_at_root(s, j - 1);
    }
}
} // verus!

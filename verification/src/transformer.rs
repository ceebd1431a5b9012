//! Transformer: the one-to-one, order-preserving map from the parsed
//! markup tree onto the HTML-like element tree.
//!
//! A paragraph becomes a `p` element, a headline of level `n` an `h{n}`,
//! the two list forms `ul` and `ol` with one `li` per item (label first,
//! then the item's child blocks), a blockquote a `blockquote`, strong and
//! italic spans `strong` and `em`, a break a `br`, and text a text node.

use vstd::prelude::*;

use crate::html::{
    lemma_view_nodes_index, spec_headline_tag, DocumentNode, ElementNode, ElementTag, Node,
    SpecElement, SpecNode, TextNode,
};
use crate::tree::{
    block_wf, blocks_wf, lemma_blocks_wf_index, lemma_list_items_wf_index,
    lemma_view_blocks_index, lemma_view_inlines_index, lemma_view_list_items_index,
    list_items_wf, view_blocks, view_inlines, view_list_items, BlockItem, InlineItem, ListItem,
    MarkdownTree, SpecBlock, SpecInline, SpecListItem,
};

verus! {

/// An element with a tag and children and nothing else.
pub open spec fn blank_element(tag: ElementTag, children: Seq<SpecNode>) -> SpecNode {
    SpecNode::Element(
        SpecElement {
            tag,
            id: Seq::empty(),
            class: Seq::empty(),
            href: None,
            attrs: Seq::empty(),
            children,
        },
    )
}

/// The element a single inline item maps onto.
pub open spec fn spec_transform_inline(i: SpecInline) -> SpecNode
    decreases i,
{
    match i {
        SpecInline::Text(s) => SpecNode::Text(s),
        SpecInline::Italic(t) => blank_element(ElementTag::Em, spec_transform_inlines(t)),
        SpecInline::Strong(t) => blank_element(ElementTag::Strong, spec_transform_inlines(t)),
        SpecInline::Break => blank_element(ElementTag::Br, Seq::empty()),
    }
}

/// The nodes a sequence of inline items maps onto, in order.
pub open spec fn spec_transform_inlines(s: Seq<SpecInline>) -> Seq<SpecNode>
    decreases s,
{
    if s.len() == 0 {
        Seq::empty()
    } else {
        seq![spec_transform_inline(s[0])] + spec_transform_inlines(s.drop_first())
    }
}

/// The element a single block item maps onto. A headline level outside
/// one through six has no tag of its own; such a block does not arise
/// from a well-formed tree.
pub open spec fn spec_transform_block(b: SpecBlock) -> SpecNode
    decreases b,
{
    match b {
        SpecBlock::Paragraph(t) => blank_element(ElementTag::P, spec_transform_inlines(t)),
        SpecBlock::Headline(level, t) => blank_element(
            match spec_headline_tag(level) {
                Some(tag) => tag,
                None => ElementTag::Div,
            },
            spec_transform_inlines(t),
        ),
        SpecBlock::BulletList(items) => blank_element(
            ElementTag::Ul,
            spec_transform_list_items(items),
        ),
        SpecBlock::OrderedList(items) => blank_element(
            ElementTag::Ol,
            spec_transform_list_items(items),
        ),
        SpecBlock::BlockQuote(bs) => blank_element(
            ElementTag::Blockquote,
            spec_transform_blocks(bs),
        ),
    }
}

/// The nodes a sequence of block items maps onto, in order.
pub open spec fn spec_transform_blocks(bs: Seq<SpecBlock>) -> Seq<SpecNode>
    decreases bs,
{
    if bs.len() == 0 {
        Seq::empty()
    } else {
        seq![spec_transform_block(bs[0])] + spec_transform_blocks(bs.drop_first())
    }
}

/// The `li` elements a sequence of list items maps onto: each holds its
/// label's inline content followed by its children's blocks.
pub open spec fn spec_transform_list_items(items: Seq<SpecListItem>) -> Seq<SpecNode>
    decreases items,
{
    if items.len() == 0 {
        Seq::empty()
    } else {
        seq![
            blank_element(
                ElementTag::Li,
                spec_transform_inlines(items[0].name) + spec_transform_blocks(items[0].children),
            ),
        ] + spec_transform_list_items(items.drop_first())
    }
}

/// The transformed inline nodes, element by element.
pub proof fn lemma_transform_inlines_index(s: Seq<SpecInline>)
    ensures
        spec_transform_inlines(s).len() == s.len(),
        forall|k: int|
            0 <= k < s.len() ==> spec_transform_inlines(s)[k] == spec_transform_inline(
                #[trigger] s[k],
            ),
    decreases s,
{
    reveal_with_fuel(spec_transform_inlines, 2);
    if s.len() > 0 {
        lemma_transform_inlines_index(s.drop_first());
        assert forall|k: int|
            0 <= k < s.len() implies spec_transform_inlines(s)[k] == spec_transform_inline(
            #[trigger] s[k],
        ) by {
            if k > 0 {
                assert(s.drop_first()[k - 1] == s[k]);
            }
        }
    }
}

/// The transformed block nodes, element by element.
pub proof fn lemma_transform_blocks_index(bs: Seq<SpecBlock>)
    ensures
        spec_transform_blocks(bs).len() == bs.len(),
        forall|k: int|
            0 <= k < bs.len() ==> spec_transform_blocks(bs)[k] == spec_transform_block(
                #[trigger] bs[k],
            ),
    decreases bs,
{
    reveal_with_fuel(spec_transform_blocks, 2);
    if bs.len() > 0 {
        lemma_transform_blocks_index(bs.drop_first());
        assert forall|k: int|
            0 <= k < bs.len() implies spec_transform_blocks(bs)[k] == spec_transform_block(
            #[trigger] bs[k],
        ) by {
            if k > 0 {
                assert(bs.drop_first()[k - 1] == bs[k]);
            }
        }
    }
}

/// The transformed list item nodes, element by element.
pub proof fn lemma_transform_list_items_index(items: Seq<SpecListItem>)
    ensures
        spec_transform_list_items(items).len() == items.len(),
        forall|k: int|
            0 <= k < items.len() ==> spec_transform_list_items(items)[k] == blank_element(
                ElementTag::Li,
                spec_transform_inlines((#[trigger] items[k]).name) + spec_transform_blocks(
                    items[k].children,
                ),
            ),
    decreases items,
{
    reveal_with_fuel(spec_transform_list_items, 2);
    if items.len() > 0 {
        lemma_transform_list_items_index(items.drop_first());
        assert forall|k: int|
            0 <= k < items.len() implies spec_transform_list_items(items)[k] == blank_element(
            ElementTag::Li,
            spec_transform_inlines((#[trigger] items[k]).name) + spec_transform_blocks(
                items[k].children,
            ),
        ) by {
            if k > 0 {
                assert(items.drop_first()[k - 1] == items[k]);
            }
        }
    }
}

/// Transformer of a markup tree into a document of elements.
///
/// This struct carries the transformer's configuration.
#[derive(Debug, Clone, Copy)]
pub struct Transformer {
    section: bool,
}

impl Default for Transformer {
    /// The default transformer: no sectioning.
    fn default() -> (r: Self)
        ensures
            !r.sectioned(),
    {
        Self { section: false }
    }
}

impl Transformer {
    /// Whether headings open sections.
    pub closed spec fn sectioned(&self) -> bool {
        self.section
    }

    /// Create a transformer with the default configuration.
    pub fn new() -> (r: Self)
        ensures
            !r.sectioned(),
    {
        Self::default()
    }

    /// Set whether headings open sections.
    pub fn section(self, section: bool) -> (r: Self)
        ensures
            r.sectioned() == section,
    {
        Transformer { section, ..self }
    }

    /// Transform a markup tree into a document node.
    pub fn transform(&self, tree: MarkdownTree) -> (r: DocumentNode)
        requires
            blocks_wf(tree@),
        ensures
            r@ == spec_transform_blocks(tree@),
    {
        DocumentNode { root: self.block_tree(&tree.root.root) }
    }

    /// Transform a run of block items.
    fn block_tree(&self, items: &Vec<BlockItem>) -> (r: Vec<Node>)
        requires
            blocks_wf(view_blocks(items@)),
        ensures
            crate::html::view_nodes(r@) == spec_transform_blocks(view_blocks(items@)),
        decreases items@,
    {
        let ghost bs = view_blocks(items@);
        let mut out: Vec<Node> = Vec::new();
        let mut i: usize = 0;
        proof {
            lemma_view_blocks_index(items@);
            lemma_blocks_wf_index(bs);
        }
        while i < items.len()
            invariant
                bs == view_blocks(items@),
                blocks_wf(bs),
                bs.len() == items@.len(),
                forall|k: int| 0 <= k < items@.len() ==> bs[k] == (#[trigger] items@[k])@,
                forall|k: int| 0 <= k < bs.len() ==> block_wf(#[trigger] bs[k]),
                0 <= i <= items@.len(),
                out@.len() == i,
                forall|k: int|
                    0 <= k < i ==> (#[trigger] out@[k])@ == spec_transform_block(bs[k]),
            decreases items@.len() - i,
        {
            let node = self.block_item(&items[i]);
            out.push(node);
            i = i + 1;
        }
        proof {
            lemma_view_nodes_index(out@);
            lemma_transform_blocks_index(bs);
            assert forall|k: int| 0 <= k < out@.len() implies crate::html::view_nodes(out@)[k]
                == spec_transform_blocks(bs)[k] by {
                assert(crate::html::view_nodes(out@)[k] == out@[k]@);
            }
            assert(crate::html::view_nodes(out@) =~= spec_transform_blocks(bs));
        }
        out
    }

    /// Transform one block item.
    fn block_item(&self, item: &BlockItem) -> (r: Node)
        requires
            block_wf(item@),
        ensures
            r@ == spec_transform_block(item@),
        decreases item,
    {
        match item {
            BlockItem::Paragraph(t) => Self::make_element(
                ElementTag::P,
                self.inline_tree(&t.root),
            ),
            BlockItem::Headline(level, t) => {
                let tag = match ElementTag::headline(*level) {
                    Some(tag) => tag,
                    None => {
                        proof {
                            assert(false);
                        }
                        ElementTag::Div
                    },
                };
                Self::make_element(tag, self.inline_tree(&t.root))
            },
            BlockItem::BulletList(lt) => Self::make_element(
                ElementTag::Ul,
                self.list_tree(&lt.root),
            ),
            BlockItem::OrderedList(lt) => Self::make_element(
                ElementTag::Ol,
                self.list_tree(&lt.root),
            ),
            BlockItem::BlockQuote(bt) => Self::make_element(
                ElementTag::Blockquote,
                self.block_tree(&bt.root),
            ),
        }
    }

    /// An element node with a tag and children and nothing else.
    fn make_element(tag: ElementTag, children: Vec<Node>) -> (r: Node)
        ensures
            r@ == blank_element(tag, crate::html::view_nodes(children@)),
    {
        let ghost cs = children@;
        let el = ElementNode {
            tag,
            id: Vec::new(),
            class: Vec::new(),
            href: None,
            attrs: Vec::new(),
            children,
        };
        proof {
            assert(crate::html::view_strings(Seq::<String>::empty()) =~= Seq::<Seq<char>>::empty());
            assert(crate::html::view_attrs(Seq::<(String, String)>::empty()) =~= Seq::<
                (Seq<char>, Seq<char>),
            >::empty());
        }
        Node::Element(el)
    }

    /// Transform a run of list items into `li` elements.
    fn list_tree(&self, items: &Vec<ListItem>) -> (r: Vec<Node>)
        requires
            list_items_wf(view_list_items(items@)),
        ensures
            crate::html::view_nodes(r@) == spec_transform_list_items(view_list_items(items@)),
        decreases items@,
    {
        let ghost lis = view_list_items(items@);
        let mut out: Vec<Node> = Vec::new();
        let mut i: usize = 0;
        proof {
            lemma_view_list_items_index(items@);
            lemma_list_items_wf_index(lis);
        }
        while i < items.len()
            invariant
                lis == view_list_items(items@),
                lis.len() == items@.len(),
                forall|k: int| 0 <= k < items@.len() ==> lis[k] == (#[trigger] items@[k])@,
                forall|k: int|
                    0 <= k < lis.len() ==> blocks_wf((#[trigger] lis[k]).children),
                0 <= i <= items@.len(),
                out@.len() == i,
                forall|k: int|
                    0 <= k < i ==> (#[trigger] out@[k])@ == blank_element(
                        ElementTag::Li,
                        spec_transform_inlines(lis[k].name) + spec_transform_blocks(
                            lis[k].children,
                        ),
                    ),
            decreases items@.len() - i,
        {
            let mut nodes = self.inline_tree(&items[i].name.root);
            let ghost head = nodes@;
            let mut blocks = self.block_tree(&items[i].children);
            let ghost tail = blocks@;
            nodes.append(&mut blocks);
            proof {
                crate::html::lemma_view_nodes_concat(head, tail);
            }
            let li = Self::make_element(ElementTag::Li, nodes);
            out.push(li);
            i = i + 1;
        }
        proof {
            lemma_view_nodes_index(out@);
            lemma_transform_list_items_index(lis);
            assert forall|k: int| 0 <= k < out@.len() implies crate::html::view_nodes(out@)[k]
                == spec_transform_list_items(lis)[k] by {
                assert(crate::html::view_nodes(out@)[k] == out@[k]@);
            }
            assert(crate::html::view_nodes(out@) =~= spec_transform_list_items(lis));
        }
        out
    }

    /// Transform a run of inline items.
    fn inline_tree(&self, items: &Vec<InlineItem>) -> (r: Vec<Node>)
        ensures
            crate::html::view_nodes(r@) == spec_transform_inlines(view_inlines(items@)),
        decreases items@,
    {
        let ghost ins = view_inlines(items@);
        let mut out: Vec<Node> = Vec::new();
        let mut i: usize = 0;
        proof {
            lemma_view_inlines_index(items@);
        }
        while i < items.len()
            invariant
                ins == view_inlines(items@),
                ins.len() == items@.len(),
                forall|k: int| 0 <= k < items@.len() ==> ins[k] == (#[trigger] items@[k])@,
                0 <= i <= items@.len(),
                out@.len() == i,
                forall|k: int|
                    0 <= k < i ==> (#[trigger] out@[k])@ == spec_transform_inline(ins[k]),
            decreases items@.len() - i,
        {
            let node = self.inline_item(&items[i]);
            out.push(node);
            i = i + 1;
        }
        proof {
            lemma_view_nodes_index(out@);
            lemma_transform_inlines_index(ins);
            assert forall|k: int| 0 <= k < out@.len() implies crate::html::view_nodes(out@)[k]
                == spec_transform_inlines(ins)[k] by {
                assert(crate::html::view_nodes(out@)[k] == out@[k]@);
            }
            assert(crate::html::view_nodes(out@) =~= spec_transform_inlines(ins));
        }
        out
    }

    /// Transform one inline item.
    fn inline_item(&self, item: &InlineItem) -> (r: Node)
        ensures
            r@ == spec_transform_inline(item@),
        decreases item,
    {
        match item {
            InlineItem::Text(s) => Node::Text(TextNode { text: s.clone() }),
            InlineItem::Italic(t) => Self::make_element(
                ElementTag::Em,
                self.inline_tree(&t.root),
            ),
            InlineItem::Strong(t) => Self::make_element(
                ElementTag::Strong,
                self.inline_tree(&t.root),
            ),
            InlineItem::Break => {
                let r = Self::make_element(ElementTag::Br, Vec::new());
                proof {
                    assert(crate::html::view_nodes(Seq::<Node>::empty()) =~= Seq::<
                        SpecNode,
                    >::empty());
                }
                r
            },
        }
    }
}

} // verus!

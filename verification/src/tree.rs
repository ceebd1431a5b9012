//! The tree structure of a parsed markup document.
//!
//! The executable trees own their text; the ghost counterparts model each
//! tree as nested sequences, and the `View` impls connect the two.

use vstd::prelude::*;

verus! {

/// A root markup document.
#[derive(Debug, PartialEq, Eq)]
pub struct MarkdownTree {
    pub root: BlockTree,
}

/// An ordered sequence of block items.
#[derive(Debug, PartialEq, Eq)]
pub struct BlockTree {
    pub root: Vec<BlockItem>,
}

/// A structural unit at document granularity.
#[derive(Debug, PartialEq, Eq)]
pub enum BlockItem {
    Paragraph(InlineTree),
    Headline(u8, InlineTree),
    BulletList(ListTree),
    OrderedList(ListTree),
    BlockQuote(BlockTree),
}

/// An ordered sequence of list items.
#[derive(Debug, PartialEq, Eq)]
pub struct ListTree {
    pub root: Vec<ListItem>,
}

/// One list entry: a label and the blocks nested under it.
#[derive(Debug, PartialEq, Eq)]
pub struct ListItem {
    /// The label of the list item.
    pub name: InlineTree,
    /// The children of the list item.
    pub children: Vec<BlockItem>,
}

/// An ordered sequence of inline items.
#[derive(Debug, PartialEq, Eq)]
pub struct InlineTree {
    pub root: Vec<InlineItem>,
}

/// A structural unit within a block's text content.
#[derive(Debug, PartialEq, Eq)]
pub enum InlineItem {
    Text(String),
    Italic(InlineTree),
    Strong(InlineTree),
    Break,
}

/// The mathematical model of an inline item.
pub ghost enum SpecInline {
    Text(Seq<char>),
    Italic(Seq<SpecInline>),
    Strong(Seq<SpecInline>),
    Break,
}

/// The mathematical model of a block item.
pub ghost enum SpecBlock {
    Paragraph(Seq<SpecInline>),
    Headline(u8, Seq<SpecInline>),
    BulletList(Seq<SpecListItem>),
    OrderedList(Seq<SpecListItem>),
    BlockQuote(Seq<SpecBlock>),
}

/// The mathematical model of a list item.
pub ghost struct SpecListItem {
    pub name: Seq<SpecInline>,
    pub children: Seq<SpecBlock>,
}

/// The models of a sequence of inline items.
pub open spec fn view_inlines(s: Seq<InlineItem>) -> Seq<SpecInline>
    decreases s,
{
    if s.len() == 0 {
        Seq::empty()
    } else {
        seq![s[0]@] + view_inlines(s.drop_first())
    }
}

/// The models of a sequence of block items.
pub open spec fn view_blocks(s: Seq<BlockItem>) -> Seq<SpecBlock>
    decreases s,
{
    if s.len() == 0 {
        Seq::empty()
    } else {
        seq![s[0]@] + view_blocks(s.drop_first())
    }
}

/// The models of a sequence of list items.
pub open spec fn view_list_items(s: Seq<ListItem>) -> Seq<SpecListItem>
    decreases s,
{
    if s.len() == 0 {
        Seq::empty()
    } else {
        seq![s[0]@] + view_list_items(s.drop_first())
    }
}

impl View for InlineItem {
    type V = SpecInline;

    open spec fn view(&self) -> SpecInline
        decreases self,
    {
        match self {
            InlineItem::Text(s) => SpecInline::Text(s@),
            InlineItem::Italic(t) => SpecInline::Italic(view_inlines(t.root@)),
            InlineItem::Strong(t) => SpecInline::Strong(view_inlines(t.root@)),
            InlineItem::Break => SpecInline::Break,
        }
    }
}

impl View for InlineTree {
    type V = Seq<SpecInline>;

    open spec fn view(&self) -> Seq<SpecInline> {
        view_inlines(self.root@)
    }
}

impl View for BlockItem {
    type V = SpecBlock;

    open spec fn view(&self) -> SpecBlock
        decreases self,
    {
        match self {
            BlockItem::Paragraph(t) => SpecBlock::Paragraph(view_inlines(t.root@)),
            BlockItem::Headline(level, t) => SpecBlock::Headline(*level, view_inlines(t.root@)),
            BlockItem::BulletList(t) => SpecBlock::BulletList(view_list_items(t.root@)),
            BlockItem::OrderedList(t) => SpecBlock::OrderedList(view_list_items(t.root@)),
            BlockItem::BlockQuote(t) => SpecBlock::BlockQuote(view_blocks(t.root@)),
        }
    }
}

impl View for ListItem {
    type V = SpecListItem;

    open spec fn view(&self) -> SpecListItem
        decreases self,
    {
        SpecListItem { name: view_inlines(self.name.root@), children: view_blocks(self.children@) }
    }
}

impl View for ListTree {
    type V = Seq<SpecListItem>;

    open spec fn view(&self) -> Seq<SpecListItem> {
        view_list_items(self.root@)
    }
}

impl View for BlockTree {
    type V = Seq<SpecBlock>;

    open spec fn view(&self) -> Seq<SpecBlock> {
        view_blocks(self.root@)
    }
}

impl View for MarkdownTree {
    type V = Seq<SpecBlock>;

    open spec fn view(&self) -> Seq<SpecBlock> {
        view_blocks(self.root.root@)
    }
}

/// Pushing onto a sequence of inline items extends its model.
pub proof fn lemma_view_inlines_push(s: Seq<InlineItem>, x: InlineItem)
    ensures
        view_inlines(s.push(x)) =~= view_inlines(s) + seq![x@],
    decreases s,
{
    reveal_with_fuel(view_inlines, 2);
    if s.len() == 0 {
        assert(s.push(x).drop_first() =~= Seq::<InlineItem>::empty());
        assert(s.push(x)[0] == x);
    } else {
        assert(s.push(x).drop_first() =~= s.drop_first().push(x));
        lemma_view_inlines_push(s.drop_first(), x);
        assert(s.push(x)[0] == s[0]);
    }
}

/// Pushing onto a sequence of block items extends its model.
pub proof fn lemma_view_blocks_push(s: Seq<BlockItem>, x: BlockItem)
    ensures
        view_blocks(s.push(x)) =~= view_blocks(s) + seq![x@],
    decreases s,
{
    reveal_with_fuel(view_blocks, 2);
    if s.len() == 0 {
        assert(s.push(x).drop_first() =~= Seq::<BlockItem>::empty());
        assert(s.push(x)[0] == x);
    } else {
        assert(s.push(x).drop_first() =~= s.drop_first().push(x));
        lemma_view_blocks_push(s.drop_first(), x);
        assert(s.push(x)[0] == s[0]);
    }
}

/// Pushing onto a sequence of list items extends its model.
pub proof fn lemma_view_list_items_push(s: Seq<ListItem>, x: ListItem)
    ensures
        view_list_items(s.push(x)) =~= view_list_items(s) + seq![x@],
    decreases s,
{
    reveal_with_fuel(view_list_items, 2);
    if s.len() == 0 {
        assert(s.push(x).drop_first() =~= Seq::<ListItem>::empty());
        assert(s.push(x)[0] == x);
    } else {
        assert(s.push(x).drop_first() =~= s.drop_first().push(x));
        lemma_view_list_items_push(s.drop_first(), x);
        assert(s.push(x)[0] == s[0]);
    }
}

/// The model of a sequence of inline items, element by element.
pub proof fn lemma_view_inlines_index(s: Seq<InlineItem>)
    ensures
        view_inlines(s).len() == s.len(),
        forall|k: int| 0 <= k < s.len() ==> view_inlines(s)[k] == (#[trigger] s[k])@,
    decreases s,
{
    reveal_with_fuel(view_inlines, 2);
    if s.len() > 0 {
        lemma_view_inlines_index(s.drop_first());
        assert forall|k: int| 0 <= k < s.len() implies view_inlines(s)[k] == (#[trigger] s[k])@ by {
            if k > 0 {
                assert(view_inlines(s)[k] == view_inlines(s.drop_first())[k - 1]);
                assert(s.drop_first()[k - 1] == s[k]);
            }
        }
    }
}

/// The model of a sequence of block items, element by element.
pub proof fn lemma_view_blocks_index(s: Seq<BlockItem>)
    ensures
        view_blocks(s).len() == s.len(),
        forall|k: int| 0 <= k < s.len() ==> view_blocks(s)[k] == (#[trigger] s[k])@,
    decreases s,
{
    reveal_with_fuel(view_blocks, 2);
    if s.len() > 0 {
        lemma_view_blocks_index(s.drop_first());
        assert forall|k: int| 0 <= k < s.len() implies view_blocks(s)[k] == (#[trigger] s[k])@ by {
            if k > 0 {
                assert(view_blocks(s)[k] == view_blocks(s.drop_first())[k - 1]);
                assert(s.drop_first()[k - 1] == s[k]);
            }
        }
    }
}

/// The model of a sequence of list items, element by element.
pub proof fn lemma_view_list_items_index(s: Seq<ListItem>)
    ensures
        view_list_items(s).len() == s.len(),
        forall|k: int| 0 <= k < s.len() ==> view_list_items(s)[k] == (#[trigger] s[k])@,
    decreases s,
{
    reveal_with_fuel(view_list_items, 2);
    if s.len() > 0 {
        lemma_view_list_items_index(s.drop_first());
        assert forall|k: int| 0 <= k < s.len() implies view_list_items(s)[k] == (#[trigger] s[k])@ by {
            if k > 0 {
                assert(view_list_items(s)[k] == view_list_items(s.drop_first())[k - 1]);
                assert(s.drop_first()[k - 1] == s[k]);
            }
        }
    }
}


/// The model of concatenated inline items is the concatenation of the
/// models.
pub proof fn lemma_view_inlines_concat(a: Seq<InlineItem>, b: Seq<InlineItem>)
    ensures
        view_inlines(a + b) =~= view_inlines(a) + view_inlines(b),
{
    lemma_view_inlines_index(a);
    lemma_view_inlines_index(b);
    lemma_view_inlines_index(a + b);
    assert forall|k: int| 0 <= k < a.len() + b.len() implies view_inlines(a + b)[k] == (
    view_inlines(a) + view_inlines(b))[k] by {
        if k < a.len() {
            assert((a + b)[k] == a[k]);
        } else {
            assert((a + b)[k] == b[k - a.len()]);
        }
    }
}

/// Dropping the last inline item drops the last model.
pub proof fn lemma_view_inlines_drop_last(a: Seq<InlineItem>)
    requires
        a.len() > 0,
    ensures
        view_inlines(a.drop_last()) =~= view_inlines(a).drop_last(),
{
    lemma_view_inlines_index(a);
    lemma_view_inlines_index(a.drop_last());
    assert forall|k: int| 0 <= k < a.len() - 1 implies view_inlines(a.drop_last())[k]
        == view_inlines(a).drop_last()[k] by {
        assert(a.drop_last()[k] == a[k]);
    }
}


/// A well-formed block: every headline level lies between one and six, at
/// any depth.
pub open spec fn block_wf(b: SpecBlock) -> bool
    decreases b,
{
    match b {
        SpecBlock::Paragraph(_) => true,
        SpecBlock::Headline(level, _) => 1 <= level <= 6,
        SpecBlock::BulletList(items) => list_items_wf(items),
        SpecBlock::OrderedList(items) => list_items_wf(items),
        SpecBlock::BlockQuote(bs) => blocks_wf(bs),
    }
}

/// A well-formed sequence of blocks.
pub open spec fn blocks_wf(bs: Seq<SpecBlock>) -> bool
    decreases bs,
{
    if bs.len() == 0 {
        true
    } else {
        block_wf(bs[0]) && blocks_wf(bs.drop_first())
    }
}

/// A well-formed sequence of list items: their children are well-formed.
pub open spec fn list_items_wf(items: Seq<SpecListItem>) -> bool
    decreases items,
{
    if items.len() == 0 {
        true
    } else {
        blocks_wf(items[0].children) && list_items_wf(items.drop_first())
    }
}

/// Well-formedness of a block sequence, element by element.
pub proof fn lemma_blocks_wf_index(bs: Seq<SpecBlock>)
    ensures
        blocks_wf(bs) <==> (forall|k: int| 0 <= k < bs.len() ==> block_wf(#[trigger] bs[k])),
    decreases bs,
{
    if bs.len() > 0 {
        lemma_blocks_wf_index(bs.drop_first());
        assert forall|k: int|
            0 <= k < bs.len() && blocks_wf(bs) implies block_wf(#[trigger] bs[k]) by {
            if k > 0 {
                assert(bs.drop_first()[k - 1] == bs[k]);
            }
        }
        if forall|k: int| 0 <= k < bs.len() ==> block_wf(#[trigger] bs[k]) {
            assert forall|k: int|
                0 <= k < bs.drop_first().len() implies block_wf(#[trigger] bs.drop_first()[k]) by {
                assert(bs.drop_first()[k] == bs[k + 1]);
            }
        }
    }
}

/// Well-formedness of a list item sequence, element by element.
pub proof fn lemma_list_items_wf_index(items: Seq<SpecListItem>)
    ensures
        list_items_wf(items) <==> (forall|k: int|
            0 <= k < items.len() ==> blocks_wf((#[trigger] items[k]).children)),
    decreases items,
{
    if items.len() > 0 {
        lemma_list_items_wf_index(items.drop_first());
        assert forall|k: int|
            0 <= k < items.len() && list_items_wf(items) implies blocks_wf(
            (#[trigger] items[k]).children,
        ) by {
            if k > 0 {
                assert(items.drop_first()[k - 1] == items[k]);
            }
        }
        if forall|k: int| 0 <= k < items.len() ==> blocks_wf((#[trigger] items[k]).children) {
            assert forall|k: int|
                0 <= k < items.drop_first().len() implies blocks_wf(
                (#[trigger] items.drop_first()[k]).children,
            ) by {
                assert(items.drop_first()[k] == items[k + 1]);
            }
        }
    }
}

} // verus!

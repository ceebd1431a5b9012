//! Table-of-contents builder.
//!
//! It walks the document's top-level heading elements in order, attaches
//! a fresh anchor id to each (the heading's text, or the text with the
//! smallest positive suffix not yet taken), and rebuilds the headings'
//! hierarchy as one nested list: each heading nests under the nearest
//! preceding heading of strictly shallower level.

use vstd::prelude::*;
use vstd::string::StringExecFns;

use crate::html::{
    spec_get_text, spec_tag_level, view_nodes, DocumentNode, ElementNode, ElementTag, Node,
    SpecElement, SpecNode, TextNode,
};

verus! {

/// The list form of the table of contents.
#[derive(Debug, Clone, Copy, PartialEq, Eq, Structural)]
pub enum ListType {
    Unordered,
    Ordered,
}

/// The element tag of a list form.
pub open spec fn spec_list_tag(t: ListType) -> ElementTag {
    match t {
        ListType::Unordered => ElementTag::Ul,
        ListType::Ordered => ElementTag::Ol,
    }
}

impl ListType {
    /// The element tag this list form renders as.
    pub fn to_tag(&self) -> (r: ElementTag)
        ensures
            r == spec_list_tag(*self),
    {
        match self {
            Self::Unordered => ElementTag::Ul,
            Self::Ordered => ElementTag::Ol,
        }
    }
}

/// The digit character of one decimal digit.
pub open spec fn spec_digit(d: int) -> char {
    if d == 0 {
        '0'
    } else if d == 1 {
        '1'
    } else if d == 2 {
        '2'
    } else if d == 3 {
        '3'
    } else if d == 4 {
        '4'
    } else if d == 5 {
        '5'
    } else if d == 6 {
        '6'
    } else if d == 7 {
        '7'
    } else if d == 8 {
        '8'
    } else {
        '9'
    }
}

/// The decimal digits of a number, most significant first.
pub open spec fn spec_decimal(n: int) -> Seq<char>
    decreases n,
{
    if n < 0 {
        Seq::empty()
    } else if n < 10 {
        seq![spec_digit(n)]
    } else {
        spec_decimal(n / 10) + seq![spec_digit(n % 10)]
    }
}

/// Whether an id is already taken.
pub open spec fn id_taken(used: Seq<Seq<char>>, x: Seq<char>) -> bool {
    exists|k: int| 0 <= k < used.len() && (#[trigger] used[k]) == x
}

/// The smallest suffix in `[k, used.len()]` that makes the text free, or
/// one past the number of taken ids, where a free suffix always exists.
pub open spec fn fresh_suffix(used: Seq<Seq<char>>, text: Seq<char>, k: int) -> int
    decreases used.len() + 1 - k,
{
    if k < 1 || k > used.len() {
        used.len() as int + 1
    } else if !id_taken(used, text + spec_decimal(k)) {
        k
    } else {
        fresh_suffix(used, text, k + 1)
    }
}

/// The anchor id a heading text receives: the text itself when still
/// free, else the text with the smallest positive decimal suffix that is
/// free.
pub open spec fn spec_fresh_id(used: Seq<Seq<char>>, text: Seq<char>) -> Seq<char> {
    if !id_taken(used, text) {
        text
    } else {
        text + spec_decimal(fresh_suffix(used, text, 1))
    }
}

/// One collected heading: its level, text, and anchor id.
pub ghost struct SpecHeading {
    pub level: u8,
    pub text: Seq<char>,
    pub anchor: Seq<char>,
}

/// Walk the top-level nodes: every heading element at or above the depth
/// limit receives a fresh anchor id, pushed onto its id values; the
/// collected headings, the ids taken so far, and the updated nodes are
/// returned together.
pub open spec fn spec_collect(ns: Seq<SpecNode>, maxlevel: u8, used: Seq<Seq<char>>) -> (
    Seq<SpecHeading>,
    Seq<Seq<char>>,
    Seq<SpecNode>,
)
    decreases ns.len(),
{
    if ns.len() == 0 {
        (Seq::empty(), used, Seq::empty())
    } else {
        let matched = match ns[0] {
            SpecNode::Element(el) => match spec_tag_level(el.tag) {
                Some(lv) => lv <= maxlevel,
                None => false,
            },
            SpecNode::Text(_) => false,
        };
        if matched {
            let el = ns[0]->Element_0;
            let lv = spec_tag_level(el.tag)->Some_0;
            let text = spec_get_text(el.children);
            let anchor = spec_fresh_id(used, text);
            let el2 = SpecElement { id: el.id.push(anchor), ..el };
            let tail = spec_collect(ns.drop_first(), maxlevel, used.push(anchor));
            (
                seq![SpecHeading { level: lv, text, anchor }] + tail.0,
                tail.1,
                seq![SpecNode::Element(el2)] + tail.2,
            )
        } else {
            let tail = spec_collect(ns.drop_first(), maxlevel, used);
            (tail.0, tail.1, seq![ns[0]] + tail.2)
        }
    }
}

/// The first position at or after `i` whose heading is at or above the
/// given level, or the length if there is none.
pub open spec fn find_level_le(hs: Seq<SpecHeading>, level: u8, i: int) -> int
    decreases hs.len() - i,
{
    if i < 0 || i >= hs.len() {
        hs.len() as int
    } else if hs[i].level <= level {
        i
    } else {
        find_level_le(hs, level, i + 1)
    }
}

pub proof fn lemma_find_level_le(hs: Seq<SpecHeading>, level: u8, i: int)
    requires
        0 <= i <= hs.len(),
    ensures
        i <= find_level_le(hs, level, i) <= hs.len(),
    decreases hs.len() - i,
{
    if i < hs.len() && !(hs[i].level <= level) {
        lemma_find_level_le(hs, level, i + 1);
    }
}

/// The anchor link of one heading: an `a` element holding the heading's
/// text, pointing at its anchor.
pub open spec fn spec_anchor_node(h: SpecHeading) -> SpecNode {
    SpecNode::Element(
        SpecElement {
            tag: ElementTag::A,
            id: Seq::empty(),
            class: Seq::empty(),
            href: Some("#"@ + h.anchor),
            attrs: Seq::empty(),
            children: seq![SpecNode::Text(h.text)],
        },
    )
}

/// An element with a tag and children and nothing else.
pub open spec fn plain_element(tag: ElementTag, children: Seq<SpecNode>) -> SpecNode {
    SpecNode::Element(
        SpecElement {
            tag,
            id: Seq::empty(),
            class: Seq::empty(),
            href: None,
            attrs: Seq::empty(),
            children,
        },
    )
}

/// The list items of a run of headings: the first heading's entry, with
/// everything up to the next heading at or above its level nested under
/// it, then its siblings.
pub open spec fn spec_nest_children(hs: Seq<SpecHeading>, tag: ElementTag) -> Seq<SpecNode>
    decreases hs.len(), 0int,
    via spec_nest_children_decreases
{
    if hs.len() == 0 {
        Seq::empty()
    } else {
        let b = find_level_le(hs, hs[0].level, 1);
        if b < hs.len() {
            let inner = if b != 1 {
                seq![spec_nest(hs.subrange(1, b), tag)]
            } else {
                Seq::empty()
            };
            seq![plain_element(ElementTag::Li, seq![spec_anchor_node(hs[0])] + inner)]
                + spec_nest_children(hs.subrange(b, hs.len() as int), tag)
        } else {
            let inner = if hs.len() >= 2 {
                seq![spec_nest(hs.subrange(1, hs.len() as int), tag)]
            } else {
                Seq::empty()
            };
            seq![plain_element(ElementTag::Li, seq![spec_anchor_node(hs[0])] + inner)]
        }
    }
}

/// The nested list of a run of headings.
pub open spec fn spec_nest(hs: Seq<SpecHeading>, tag: ElementTag) -> SpecNode
    decreases hs.len(), 1int,
{
    plain_element(tag, spec_nest_children(hs, tag))
}

#[via_fn]
proof fn spec_nest_children_decreases(hs: Seq<SpecHeading>, tag: ElementTag) {
    if hs.len() > 0 {
        lemma_find_level_le(hs, hs[0].level, 1);
    }
}

/// Table-of-contents maker.
///
/// This carries the depth limit (headings of shallower or equal level are
/// included) and the list form of the output.
#[derive(Debug, Clone, Copy)]
pub struct TocMaker {
    level: u8,
    list_type: ListType,
}

impl Default for TocMaker {
    /// The default maker: headings down to level three, as an unordered
    /// list.
    fn default() -> (r: Self)
        ensures
            r.depth() == 3,
            r.list_form() == ListType::Unordered,
    {
        Self { level: 3, list_type: ListType::Unordered }
    }
}

impl TocMaker {
    /// The depth limit.
    pub closed spec fn depth(&self) -> u8 {
        self.level
    }

    /// The list form of the output.
    pub closed spec fn list_form(&self) -> ListType {
        self.list_type
    }

    /// Set the depth limit.
    pub fn level(self, level: u8) -> (r: Self)
        ensures
            r.depth() == level,
            r.list_form() == self.list_form(),
    {
        TocMaker { level, ..self }
    }
}

/// The decimal digits of one digit value.
fn digit_str(d: usize) -> (r: &'static str)
    requires
        d < 10,
    ensures
        r@ =~= seq![spec_digit(d as int)],
{
    proof {
        reveal_strlit("0");
        reveal_strlit("1");
        reveal_strlit("2");
        reveal_strlit("3");
        reveal_strlit("4");
        reveal_strlit("5");
        reveal_strlit("6");
        reveal_strlit("7");
        reveal_strlit("8");
        reveal_strlit("9");
    }
    match d {
        0 => "0",
        1 => "1",
        2 => "2",
        3 => "3",
        4 => "4",
        5 => "5",
        6 => "6",
        7 => "7",
        8 => "8",
        _ => "9",
    }
}

/// The decimal form of a number.
fn usize_to_string(n: usize) -> (r: String)
    ensures
        r@ == spec_decimal(n as int),
    decreases n,
{
    if n < 10 {
        let mut out = String::new();
        out.append(digit_str(n));
        proof {
            assert(out@ =~= seq![spec_digit(n as int)]);
        }
        out
    } else {
        let mut out = usize_to_string(n / 10);
        out.append(digit_str(n % 10));
        proof {
            assert(out@ =~= spec_decimal(n as int / 10) + seq![spec_digit(n as int % 10)]);
        }
        out
    }
}

/// The views of a list of taken ids.
pub open spec fn view_ids(s: Seq<String>) -> Seq<Seq<char>> {
    s.map_values(|x: String| x@)
}

/// Whether an id is already in the taken list.
fn contains_id(used: &Vec<String>, x: &String) -> (b: bool)
    ensures
        b == id_taken(view_ids(used@), x@),
{
    let ghost us = view_ids(used@);
    let mut i: usize = 0;
    while i < used.len()
        invariant
            us == view_ids(used@),
            us.len() == used@.len(),
            0 <= i <= used@.len(),
            forall|k: int| 0 <= k < i ==> (#[trigger] us[k]) != x@,
        decreases used@.len() - i,
    {
        proof {
            assert(us[i as int] == used@[i as int]@);
        }
        if used[i].eq(x) {
            return true;
        }
        i = i + 1;
    }
    false
}

/// Take a fresh anchor id for a heading text, recording it as taken.
fn take_fresh_id(used: &mut Vec<String>, text: &String) -> (r: String)
    requires
        old(used)@.len() < usize::MAX,
    ensures
        r@ == spec_fresh_id(view_ids(old(used)@), text@),
        view_ids(final(used)@) == view_ids(old(used)@).push(r@),
{
    let ghost us = view_ids(used@);
    if !contains_id(used, text) {
        let id = text.clone();
        used.push(id.clone());
        proof {
            assert(view_ids(used@) =~= us.push(id@));
        }
        return id;
    }
    let bound = used.len();
    let mut k: usize = 1;
    while k <= bound
        invariant
            used@ == old(used)@,
            us == view_ids(used@),
            us.len() == used@.len(),
            bound == used@.len() < usize::MAX,
            1 <= k <= bound + 1,
            id_taken(us, text@),
            fresh_suffix(us, text@, 1) == fresh_suffix(us, text@, k as int),
        decreases bound + 1 - k,
    {
        let mut candidate = text.clone();
        let suffix = usize_to_string(k);
        candidate.append(suffix.as_str());
        proof {
            assert(candidate@ == text@ + spec_decimal(k as int));
        }
        if !contains_id(used, &candidate) {
            proof {
                assert(fresh_suffix(us, text@, k as int) == k);
                assert(spec_fresh_id(us, text@) == candidate@);
            }
            used.push(candidate.clone());
            proof {
                assert(view_ids(used@) =~= us.push(candidate@));
            }
            return candidate;
        }
        k = k + 1;
    }
    let mut candidate = text.clone();
    let suffix = usize_to_string(k);
    candidate.append(suffix.as_str());
    proof {
        assert(fresh_suffix(us, text@, k as int) == us.len() + 1);
        assert(candidate@ == text@ + spec_decimal(k as int));
        assert(spec_fresh_id(us, text@) == candidate@);
    }
    used.push(candidate.clone());
    proof {
        assert(view_ids(used@) =~= us.push(candidate@));
    }
    candidate
}


/// The views of collected heading entries.
pub open spec fn view_headings(s: Seq<(u8, String, String)>) -> Seq<SpecHeading> {
    s.map_values(|e: (u8, String, String)| SpecHeading { level: e.0, text: e.1@, anchor: e.2@ })
}

impl TocMaker {
    /// Attach anchor ids to the document's top-level headings and build
    /// their table of contents as one nested list.
    pub fn make_toc(&self, input: &mut DocumentNode) -> (r: DocumentNode)
        requires
            old(input).root@.len() < usize::MAX,
        ensures
            final(input)@ == spec_collect(old(input)@, self.depth(), Seq::empty()).2,
            r@ == seq![
                spec_nest(
                    spec_collect(old(input)@, self.depth(), Seq::empty()).0,
                    spec_list_tag(self.list_form()),
                ),
            ],
    {
        let ghost whole = view_nodes(old(input).root@);
        let ghost lvl = self.level;
        let ghost orig_len = old(input).root@.len() as int;
        let mut entries: Vec<(u8, String, String)> = Vec::new();
        let mut used: Vec<String> = Vec::new();
        let mut new_root: Vec<Node> = Vec::new();
        proof {
            assert(view_headings(entries@) =~= Seq::<SpecHeading>::empty());
            assert(view_ids(used@) =~= Seq::<Seq<char>>::empty());
            assert(view_nodes(new_root@) =~= Seq::<SpecNode>::empty());
            assert(Seq::<SpecHeading>::empty() + spec_collect(whole, lvl, view_ids(used@)).0
                =~= spec_collect(whole, lvl, view_ids(used@)).0);
            assert(Seq::<SpecNode>::empty() + spec_collect(whole, lvl, view_ids(used@)).2
                =~= spec_collect(whole, lvl, view_ids(used@)).2);
        }
        while input.root.len() > 0
            invariant
                lvl == self.level,
                used@.len() + input.root@.len() <= orig_len < usize::MAX,
                spec_collect(whole, lvl, Seq::empty()).0 == view_headings(entries@)
                    + spec_collect(view_nodes(input.root@), lvl, view_ids(used@)).0,
                spec_collect(whole, lvl, Seq::empty()).1 == spec_collect(
                    view_nodes(input.root@),
                    lvl,
                    view_ids(used@),
                ).1,
                spec_collect(whole, lvl, Seq::empty()).2 == view_nodes(new_root@)
                    + spec_collect(view_nodes(input.root@), lvl, view_ids(used@)).2,
            decreases input.root@.len(),
        {
            let ghost prev_root = input.root@;
            let ghost cur = view_nodes(prev_root);
            let ghost used0 = view_ids(used@);
            let ghost done_h = view_headings(entries@);
            let ghost done_n = view_nodes(new_root@);
            let node = input.root.remove(0);
            proof {
                assert(input.root@ =~= prev_root.drop_first());
                assert(cur == seq![node@] + view_nodes(prev_root.drop_first()));
                assert(cur[0] == node@);
            }
            let ghost rest_views = view_nodes(input.root@);
            proof {
                assert(cur.drop_first() =~= rest_views);
            }
            match node {
                Node::Element(mut element) => {
                    let hl = element.tag.get_headline_level();
                    let matched = match hl {
                        Some(lv) => lv <= self.level,
                        None => false,
                    };
                    if matched {
                        let lv = match hl {
                            Some(lv) => lv,
                            None => 0,
                        };
                        let ghost el = element@;
                        proof {
                            assert(cur[0] == SpecNode::Element(el));
                        }
                        let text = crate::html::get_text(element.children.as_slice());
                        let id = take_fresh_id(&mut used, &text);
                        proof {
                            assert(view_ids(used@) == used0.push(id@));
                            assert(view_ids(used@).len() == used0.len() + 1);
                            assert(used@.len() == used0.len() + 1);
                        }
                        let ghost prev_ids = element.id@;
                        element.id.push(id.clone());
                        proof {
                            assert(crate::html::view_strings(element.id@) =~= crate::html::view_strings(
                                prev_ids,
                            ).push(id@));
                            assert(element@ == (SpecElement { id: el.id.push(id@), ..el }));
                        }
                        let ghost hd = SpecHeading { level: lv, text: text@, anchor: id@ };
                        entries.push((lv, text, id));
                        let node2 = Node::Element(element);
                        proof {
                            crate::html::lemma_view_nodes_push(new_root@, node2);
                        }
                        new_root.push(node2);
                        proof {
                            let tail = spec_collect(rest_views, lvl, used0.push(hd.anchor));
                            assert(cur[0]->Element_0 == el);
                            assert(spec_tag_level(el.tag) == hl);
                            assert(spec_collect(cur, lvl, used0).0 == seq![hd] + tail.0);
                            assert(spec_collect(cur, lvl, used0).1 == tail.1);
                            assert(spec_collect(cur, lvl, used0).2 == seq![
                                SpecNode::Element(SpecElement { id: el.id.push(hd.anchor), ..el }),
                            ] + tail.2);
                            assert(view_headings(entries@) =~= done_h.push(hd));
                            assert(view_nodes(new_root@) =~= done_n.push(
                                SpecNode::Element(SpecElement { id: el.id.push(hd.anchor), ..el }),
                            ));
                            assert(done_h + (seq![hd] + tail.0) =~= done_h.push(hd) + tail.0);
                            assert(done_n + (seq![
                                SpecNode::Element(SpecElement { id: el.id.push(hd.anchor), ..el }),
                            ] + tail.2) =~= done_n.push(
                                SpecNode::Element(SpecElement { id: el.id.push(hd.anchor), ..el }),
                            ) + tail.2);
                        }
                    } else {
                        let node2 = Node::Element(element);
                        proof {
                            crate::html::lemma_view_nodes_push(new_root@, node2);
                        }
                        new_root.push(node2);
                        proof {
                            let tail = spec_collect(rest_views, lvl, used0);
                            assert(spec_collect(cur, lvl, used0).0 == tail.0);
                            assert(spec_collect(cur, lvl, used0).2 == seq![cur[0]] + tail.2);
                            assert(view_nodes(new_root@) =~= done_n.push(cur[0]));
                            assert(done_n + (seq![cur[0]] + tail.2) =~= done_n.push(cur[0])
                                + tail.2);
                        }
                    }
                },
                Node::Text(t) => {
                    let node2 = Node::Text(t);
                    proof {
                        crate::html::lemma_view_nodes_push(new_root@, node2);
                    }
                    new_root.push(node2);
                    proof {
                        let tail = spec_collect(rest_views, lvl, used0);
                        assert(spec_collect(cur, lvl, used0).0 == tail.0);
                        assert(spec_collect(cur, lvl, used0).2 == seq![cur[0]] + tail.2);
                        assert(view_nodes(new_root@) =~= done_n.push(cur[0]));
                        assert(done_n + (seq![cur[0]] + tail.2) =~= done_n.push(cur[0]) + tail.2);
                    }
                },
            }
        }
        proof {
            assert(view_nodes(input.root@) =~= Seq::<SpecNode>::empty());
            assert(spec_collect(view_nodes(input.root@), lvl, view_ids(used@)).0
                =~= Seq::<SpecHeading>::empty());
            assert(spec_collect(view_nodes(input.root@), lvl, view_ids(used@)).2
                =~= Seq::<SpecNode>::empty());
            assert(spec_collect(whole, lvl, Seq::empty()).0 =~= view_headings(entries@));
            assert(spec_collect(whole, lvl, Seq::empty()).2 =~= view_nodes(new_root@));
        }
        input.root = new_root;
        let output = self.nest(entries.as_slice());
        let mut root: Vec<Node> = Vec::new();
        root.push(output);
        proof {
            crate::html::lemma_view_nodes_index(root@);
            assert(view_nodes(root@)[0] == root@[0]@);
            assert(view_nodes(root@) =~= seq![
                spec_nest(view_headings(entries@), spec_list_tag(self.list_type)),
            ]);
        }
        DocumentNode { root }
    }

    /// Build the nested list of a run of collected headings: each
    /// heading's entry takes everything up to the next heading at or
    /// above its level as its nested sub-list.
    fn nest(&self, rest: &[(u8, String, String)]) -> (r: Node)
        ensures
            r@ == spec_nest(view_headings(rest@), spec_list_tag(self.list_form())),
        decreases rest@.len(), 1int,
    {
        let ghost hs = view_headings(rest@);
        let ghost tag = spec_list_tag(self.list_type);
        let mut children: Vec<Node> = Vec::new();
        let mut cur: &[(u8, String, String)] = rest;
        proof {
            assert(view_nodes(children@) =~= Seq::<SpecNode>::empty());
            assert(Seq::<SpecNode>::empty() + spec_nest_children(view_headings(cur@), tag)
                =~= spec_nest_children(view_headings(cur@), tag));
        }
        while cur.len() > 0
            invariant
                tag == spec_list_tag(self.list_type),
                cur@.len() <= rest@.len(),
                spec_nest_children(hs, tag) == view_nodes(children@) + spec_nest_children(
                    view_headings(cur@),
                    tag,
                ),
            decreases cur@.len(),
        {
            let ghost chs = view_headings(cur@);
            let ghost done = view_nodes(children@);
            let n = cur.len();
            let mut b: usize = 1;
            while b < n && !(cur[b].0 <= cur[0].0)
                invariant
                    chs == view_headings(cur@),
                    chs.len() == cur@.len(),
                    n == cur@.len(),
                    1 <= b <= n,
                    find_level_le(chs, chs[0].level, 1) == find_level_le(
                        chs,
                        chs[0].level,
                        b as int,
                    ),
                decreases n - b,
            {
                proof {
                    assert(chs[b as int].level == cur@[b as int].0);
                }
                b = b + 1;
            }
            proof {
                assert(chs[0].level == cur@[0].0);
                if b < n {
                    assert(chs[b as int].level == cur@[b as int].0);
                }
                assert(find_level_le(chs, chs[0].level, 1) == b);
            }
            let mut href = String::new();
            href.append("#");
            href.append(cur[0].2.as_str());
            let mut a_children: Vec<Node> = Vec::new();
            a_children.push(Node::Text(TextNode { text: cur[0].1.clone() }));
            proof {
                crate::html::lemma_view_nodes_index(a_children@);
                assert forall|k: int| 0 <= k < a_children@.len() implies view_nodes(
                    a_children@,
                )[k] == seq![a_children@[0]@][k] by {
                    assert(view_nodes(a_children@)[k] == a_children@[k]@);
                }
                assert(view_nodes(a_children@) =~= seq![a_children@[0]@]);
            }
            let a_tag = Node::Element(
                ElementNode {
                    tag: ElementTag::A,
                    id: Vec::new(),
                    class: Vec::new(),
                    href: Some(href),
                    attrs: Vec::new(),
                    children: a_children,
                },
            );
            proof {
                assert(crate::html::view_strings(Seq::<String>::empty()) =~= Seq::<
                    Seq<char>,
                >::empty());
                assert(crate::html::view_attrs(Seq::<(String, String)>::empty()) =~= Seq::<
                    (Seq<char>, Seq<char>),
                >::empty());
                assert(a_tag@ == spec_anchor_node(chs[0])) by {
                    assert(view_nodes(a_tag->Element_0.children@) =~= seq![
                        SpecNode::Text(chs[0].text),
                    ]);
                    assert(a_tag->Element_0.href->0@ =~= "#"@ + chs[0].anchor);
                }
            }
            let ghost anchor = a_tag@;
            let mut li_children: Vec<Node> = Vec::new();
            li_children.push(a_tag);
            if b < n {
                let ghost inner_part = if b != 1 {
                    seq![spec_nest(chs.subrange(1, b as int), tag)]
                } else {
                    Seq::<SpecNode>::empty()
                };
                if b != 1 {
                    proof {
                        assert(view_headings(cur@.subrange(1, b as int)) =~= chs.subrange(
                            1,
                            b as int,
                        ));
                    }
                    let inner = self.nest(&cur[1..b]);
                    li_children.push(inner);
                    proof {
                        crate::html::lemma_view_nodes_index(li_children@);
                        assert forall|k: int| 0 <= k < li_children@.len() implies view_nodes(
                            li_children@,
                        )[k] == (seq![anchor] + inner_part)[k] by {
                            assert(view_nodes(li_children@)[k] == li_children@[k]@);
                        }
                        assert(view_nodes(li_children@) =~= seq![anchor] + inner_part);
                    }
                } else {
                    proof {
                        crate::html::lemma_view_nodes_index(li_children@);
                        assert forall|k: int| 0 <= k < li_children@.len() implies view_nodes(
                            li_children@,
                        )[k] == (seq![anchor] + inner_part)[k] by {
                            assert(view_nodes(li_children@)[k] == li_children@[k]@);
                        }
                        assert(view_nodes(li_children@) =~= seq![anchor] + inner_part);
                    }
                }
                proof {
                    crate::html::lemma_view_nodes_index(li_children@);
                }
                let li = Node::Element(
                    ElementNode {
                        tag: ElementTag::Li,
                        id: Vec::new(),
                        class: Vec::new(),
                        href: None,
                        attrs: Vec::new(),
                        children: li_children,
                    },
                );
                proof {
                    crate::html::lemma_view_nodes_push(children@, li);
                }
                children.push(li);
                proof {
                    assert(li@ == plain_element(
                        ElementTag::Li,
                        seq![spec_anchor_node(chs[0])] + inner_part,
                    ));
                    assert(view_headings(cur@.subrange(b as int, n as int)) =~= chs.subrange(
                        b as int,
                        n as int,
                    ));
                    assert(spec_nest_children(chs, tag) == seq![
                        plain_element(ElementTag::Li, seq![spec_anchor_node(chs[0])] + inner_part),
                    ] + spec_nest_children(chs.subrange(b as int, n as int), tag));
                    assert(view_nodes(children@) =~= done.push(li@));
                    assert(done + (seq![li@] + spec_nest_children(
                        chs.subrange(b as int, n as int),
                        tag,
                    )) =~= done.push(li@) + spec_nest_children(
                        chs.subrange(b as int, n as int),
                        tag,
                    ));
                }
                cur = &cur[b..n];
            } else {
                let ghost inner_part = if n >= 2 {
                    seq![spec_nest(chs.subrange(1, n as int), tag)]
                } else {
                    Seq::<SpecNode>::empty()
                };
                if n >= 2 {
                    proof {
                        assert(view_headings(cur@.subrange(1, n as int)) =~= chs.subrange(
                            1,
                            n as int,
                        ));
                    }
                    let inner = self.nest(&cur[1..n]);
                    li_children.push(inner);
                    proof {
                        crate::html::lemma_view_nodes_index(li_children@);
                        assert forall|k: int| 0 <= k < li_children@.len() implies view_nodes(
                            li_children@,
                        )[k] == (seq![anchor] + inner_part)[k] by {
                            assert(view_nodes(li_children@)[k] == li_children@[k]@);
                        }
                        assert(view_nodes(li_children@) =~= seq![anchor] + inner_part);
                    }
                } else {
                    proof {
                        crate::html::lemma_view_nodes_index(li_children@);
                        assert forall|k: int| 0 <= k < li_children@.len() implies view_nodes(
                            li_children@,
                        )[k] == (seq![anchor] + inner_part)[k] by {
                            assert(view_nodes(li_children@)[k] == li_children@[k]@);
                        }
                        assert(view_nodes(li_children@) =~= seq![anchor] + inner_part);
                    }
                }
                proof {
                    crate::html::lemma_view_nodes_index(li_children@);
                }
                let li = Node::Element(
                    ElementNode {
                        tag: ElementTag::Li,
                        id: Vec::new(),
                        class: Vec::new(),
                        href: None,
                        attrs: Vec::new(),
                        children: li_children,
                    },
                );
                proof {
                    crate::html::lemma_view_nodes_push(children@, li);
                }
                children.push(li);
                proof {
                    assert(li@ == plain_element(
                        ElementTag::Li,
                        seq![spec_anchor_node(chs[0])] + inner_part,
                    ));
                    assert(spec_nest_children(chs, tag) == seq![
                        plain_element(ElementTag::Li, seq![spec_anchor_node(chs[0])] + inner_part),
                    ]);
                    assert(view_nodes(children@) =~= done.push(li@));
                    assert(view_headings(cur@.subrange(n as int, n as int)) =~= Seq::<
                        SpecHeading,
                    >::empty());
                    assert(done + seq![li@] =~= done.push(li@));
                }
                cur = &cur[n..n];
            }
        }
        proof {
            assert(view_headings(cur@) =~= Seq::<SpecHeading>::empty());
            assert(view_nodes(children@) + spec_nest_children(view_headings(cur@), tag)
                =~= view_nodes(children@));
        }
        let r = Node::Element(
            ElementNode {
                tag: self.list_type.to_tag(),
                id: Vec::new(),
                class: Vec::new(),
                href: None,
                attrs: Vec::new(),
                children,
            },
        );
        proof {
            assert(crate::html::view_strings(Seq::<String>::empty()) =~= Seq::<
                Seq<char>,
            >::empty());
            assert(crate::html::view_attrs(Seq::<(String, String)>::empty()) =~= Seq::<
                (Seq<char>, Seq<char>),
            >::empty());
        }
        r
    }
}

} // verus!

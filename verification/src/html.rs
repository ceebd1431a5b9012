//! The HTML-like element tree that a parsed document maps onto.

use vstd::prelude::*;

verus! {

/// A root document: a list of nodes.
#[derive(Debug, PartialEq, Eq)]
pub struct DocumentNode {
    pub root: Vec<Node>,
}

/// An element tag.
#[derive(Debug, Clone, Copy, PartialEq, Eq, Structural)]
pub enum ElementTag {
    Div,
    Span,
    P,
    H1,
    H2,
    H3,
    H4,
    H5,
    H6,
    Ul,
    Ol,
    Li,
    Blockquote,
    A,
    Strong,
    Em,
    Br,
}

/// Whether a tag is a block item.
pub open spec fn spec_is_block_tag(tag: ElementTag) -> bool {
    match tag {
        ElementTag::Div => true,
        ElementTag::P => true,
        ElementTag::Ul => true,
        ElementTag::Ol => true,
        ElementTag::Li => true,
        ElementTag::H1 => true,
        ElementTag::H2 => true,
        ElementTag::H3 => true,
        ElementTag::H4 => true,
        ElementTag::H5 => true,
        ElementTag::H6 => true,
        _ => false,
    }
}

/// The tag of a headline of the given level, if there is one.
pub open spec fn spec_headline_tag(level: u8) -> Option<ElementTag> {
    if level == 1 {
        Some(ElementTag::H1)
    } else if level == 2 {
        Some(ElementTag::H2)
    } else if level == 3 {
        Some(ElementTag::H3)
    } else if level == 4 {
        Some(ElementTag::H4)
    } else if level == 5 {
        Some(ElementTag::H5)
    } else if level == 6 {
        Some(ElementTag::H6)
    } else {
        None
    }
}

/// The level of a headline tag, if it is one.
pub open spec fn spec_tag_level(tag: ElementTag) -> Option<u8> {
    match tag {
        ElementTag::H1 => Some(1u8),
        ElementTag::H2 => Some(2u8),
        ElementTag::H3 => Some(3u8),
        ElementTag::H4 => Some(4u8),
        ElementTag::H5 => Some(5u8),
        ElementTag::H6 => Some(6u8),
        _ => None,
    }
}

impl ElementTag {
    /// Whether this tag is a block item.
    pub fn is_block_item(&self) -> (b: bool)
        ensures
            b == spec_is_block_tag(*self),
    {
        match self {
            ElementTag::Div | ElementTag::P | ElementTag::Ul | ElementTag::Ol | ElementTag::Li
                | ElementTag::H1 | ElementTag::H2 | ElementTag::H3 | ElementTag::H4
                | ElementTag::H5 | ElementTag::H6 => true,
            _ => false,
        }
    }

    /// The tag of a headline of the given level, for levels one through
    /// six.
    pub fn headline(level: u8) -> (r: Option<Self>)
        ensures
            r == spec_headline_tag(level),
    {
        match level {
            1 => Some(Self::H1),
            2 => Some(Self::H2),
            3 => Some(Self::H3),
            4 => Some(Self::H4),
            5 => Some(Self::H5),
            6 => Some(Self::H6),
            _ => None,
        }
    }

    /// The headline level of this tag, if it is a headline tag.
    pub fn get_headline_level(&self) -> (r: Option<u8>)
        ensures
            r == spec_tag_level(*self),
    {
        match self {
            Self::H1 => Some(1),
            Self::H2 => Some(2),
            Self::H3 => Some(3),
            Self::H4 => Some(4),
            Self::H5 => Some(5),
            Self::H6 => Some(6),
            _ => None,
        }
    }
}

/// A node: an element or a text node.
#[derive(Debug, PartialEq, Eq)]
pub enum Node {
    Element(ElementNode),
    Text(TextNode),
}

/// An element node: a tag, its attributes, and its children.
#[derive(Debug, PartialEq, Eq)]
pub struct ElementNode {
    /// The tag of this element.
    pub tag: ElementTag,
    /// The id values of this element.
    pub id: Vec<String>,
    /// The classes of this element.
    pub class: Vec<String>,
    /// The href of this element.
    pub href: Option<String>,
    /// The other attributes of this element, as name and value pairs.
    pub attrs: Vec<(String, String)>,
    /// The children of this element.
    pub children: Vec<Node>,
}

/// A text node.
#[derive(Debug, PartialEq, Eq)]
pub struct TextNode {
    pub text: String,
}

/// The mathematical model of an element node.
pub ghost struct SpecElement {
    pub tag: ElementTag,
    pub id: Seq<Seq<char>>,
    pub class: Seq<Seq<char>>,
    pub href: Option<Seq<char>>,
    pub attrs: Seq<(Seq<char>, Seq<char>)>,
    pub children: Seq<SpecNode>,
}

/// The mathematical model of a node.
pub ghost enum SpecNode {
    Element(SpecElement),
    Text(Seq<char>),
}

/// The models of a sequence of strings.
pub open spec fn view_strings(s: Seq<String>) -> Seq<Seq<char>> {
    s.map_values(|x: String| x@)
}

/// The models of a sequence of attribute pairs.
pub open spec fn view_attrs(s: Seq<(String, String)>) -> Seq<(Seq<char>, Seq<char>)> {
    s.map_values(|x: (String, String)| (x.0@, x.1@))
}

/// The models of a sequence of nodes.
pub open spec fn view_nodes(s: Seq<Node>) -> Seq<SpecNode>
    decreases s,
{
    if s.len() == 0 {
        Seq::empty()
    } else {
        seq![s[0]@] + view_nodes(s.drop_first())
    }
}

impl View for Node {
    type V = SpecNode;

    open spec fn view(&self) -> SpecNode
        decreases self,
    {
        match self {
            Node::Element(el) => SpecNode::Element(
                SpecElement {
                    tag: el.tag,
                    id: view_strings(el.id@),
                    class: view_strings(el.class@),
                    href: match el.href {
                        Some(h) => Some(h@),
                        None => None,
                    },
                    attrs: view_attrs(el.attrs@),
                    children: view_nodes(el.children@),
                },
            ),
            Node::Text(t) => SpecNode::Text(t.text@),
        }
    }
}

impl View for ElementNode {
    type V = SpecElement;

    open spec fn view(&self) -> SpecElement {
        SpecElement {
            tag: self.tag,
            id: view_strings(self.id@),
            class: view_strings(self.class@),
            href: match self.href {
                Some(h) => Some(h@),
                None => None,
            },
            attrs: view_attrs(self.attrs@),
            children: view_nodes(self.children@),
        }
    }
}

impl View for DocumentNode {
    type V = Seq<SpecNode>;

    open spec fn view(&self) -> Seq<SpecNode> {
        view_nodes(self.root@)
    }
}

/// Whether a node is a block item.
pub open spec fn spec_node_is_block(n: SpecNode) -> bool {
    match n {
        SpecNode::Element(el) => spec_is_block_tag(el.tag),
        SpecNode::Text(_) => false,
    }
}

impl Node {
    /// Whether this node is a block item.
    pub fn is_block_item(&self) -> (b: bool)
        ensures
            b == spec_node_is_block(self@),
    {
        match self {
            Node::Element(element) => element.tag.is_block_item(),
            Node::Text(_) => false,
        }
    }
}

/// The flattened text of a sequence of nodes: element nodes contribute the
/// text of their children, text nodes their own text, in order.
pub open spec fn spec_get_text(ns: Seq<SpecNode>) -> Seq<char>
    decreases ns,
{
    if ns.len() == 0 {
        Seq::empty()
    } else {
        (match ns[0] {
            SpecNode::Element(el) => spec_get_text(el.children),
            SpecNode::Text(t) => t,
        }) + spec_get_text(ns.drop_first())
    }
}

/// The model of a sequence of nodes, element by element.
pub proof fn lemma_view_nodes_index(s: Seq<Node>)
    ensures
        view_nodes(s).len() == s.len(),
        forall|k: int| 0 <= k < s.len() ==> view_nodes(s)[k] == (#[trigger] s[k])@,
    decreases s,
{
    reveal_with_fuel(view_nodes, 2);
    if s.len() > 0 {
        lemma_view_nodes_index(s.drop_first());
        assert forall|k: int| 0 <= k < s.len() implies view_nodes(s)[k] == (#[trigger] s[k])@ by {
            if k > 0 {
                assert(view_nodes(s)[k] == view_nodes(s.drop_first())[k - 1]);
                assert(s.drop_first()[k - 1] == s[k]);
            }
        }
    }
}

/// Pushing a node onto a sequence extends its model.
pub proof fn lemma_view_nodes_push(s: Seq<Node>, x: Node)
    ensures
        view_nodes(s.push(x)) =~= view_nodes(s) + seq![x@],
    decreases s,
{
    reveal_with_fuel(view_nodes, 2);
    if s.len() == 0 {
        assert(s.push(x).drop_first() =~= Seq::<Node>::empty());
        assert(s.push(x)[0] == x);
    } else {
        assert(s.push(x).drop_first() =~= s.drop_first().push(x));
        assert(s.push(x)[0] == s[0]);
        lemma_view_nodes_push(s.drop_first(), x);
    }
}

/// Flatten the text content of a run of nodes.
pub fn get_text(nodes: &[Node]) -> (r: String)
    ensures
        r@ == spec_get_text(view_nodes(nodes@)),
    decreases nodes@,
{
    let ghost ns = nodes@;
    let mut out = String::new();
    let mut i: usize = 0;
    proof {
        lemma_view_nodes_index(ns);
        assert(spec_get_text(view_nodes(ns.subrange(0, 0))) =~= Seq::<char>::empty());
        assert(view_nodes(ns.subrange(0, 0)) =~= Seq::<SpecNode>::empty());
    }
    while i < nodes.len()
        invariant
            ns == nodes@,
            0 <= i <= ns.len(),
            out@ == spec_get_text(view_nodes(ns.subrange(0, i as int))),
        decreases ns.len() - i,
    {
        let ghost prev = out@;
        match &nodes[i] {
            Node::Element(el) => {
                let inner = get_text(el.children.as_slice());
                out.append(inner.as_str());
            },
            Node::Text(t) => {
                out.append(t.text.as_str());
            },
        }
        proof {
            let piece = match ns[i as int]@ {
                SpecNode::Element(el) => spec_get_text(el.children),
                SpecNode::Text(t) => t,
            };
            assert(out@ == prev + piece);
            lemma_get_text_snoc(view_nodes(ns.subrange(0, i as int)), ns[i as int]@);
            assert(view_nodes(ns.subrange(0, i + 1)) =~= view_nodes(
                ns.subrange(0, i as int),
            ).push(ns[i as int]@)) by {
                lemma_view_nodes_index(ns.subrange(0, i as int));
                lemma_view_nodes_index(ns.subrange(0, i + 1));
                lemma_view_nodes_index(ns);
                assert forall|k: int| 0 <= k < i + 1 implies view_nodes(ns.subrange(0, i + 1))[k]
                    == view_nodes(ns.subrange(0, i as int)).push(ns[i as int]@)[k] by {
                    assert(ns.subrange(0, i + 1)[k] == ns[k]);
                    if k < i {
                        assert(ns.subrange(0, i as int)[k] == ns[k]);
                    }
                }
            }
        }
        i = i + 1;
    }
    proof {
        assert(ns.subrange(0, ns.len() as int) =~= ns);
    }
    out
}

/// Flattened text grows node by node.
proof fn lemma_get_text_snoc(ns: Seq<SpecNode>, x: SpecNode)
    ensures
        spec_get_text(ns.push(x)) == spec_get_text(ns) + (match x {
            SpecNode::Element(el) => spec_get_text(el.children),
            SpecNode::Text(t) => t,
        }),
    decreases ns,
{
    reveal_with_fuel(spec_get_text, 2);
    if ns.len() == 0 {
        assert(ns.push(x).drop_first() =~= Seq::<SpecNode>::empty());
        assert(ns.push(x)[0] == x);
        assert(spec_get_text(ns.push(x)) =~= spec_get_text(ns) + (match x {
            SpecNode::Element(el) => spec_get_text(el.children),
            SpecNode::Text(t) => t,
        }));
    } else {
        assert(ns.push(x).drop_first() =~= ns.drop_first().push(x));
        assert(ns.push(x)[0] == ns[0]);
        lemma_get_text_snoc(ns.drop_first(), x);
        assert(spec_get_text(ns.push(x)) =~= spec_get_text(ns) + (match x {
            SpecNode::Element(el) => spec_get_text(el.children),
            SpecNode::Text(t) => t,
        }));
    }
}

impl Default for ElementNode {
    /// An empty division: the default element.
    fn default() -> (r: Self)
        ensures
            r.tag == ElementTag::Div,
            r.id@ =~= Seq::<String>::empty(),
            r.class@ =~= Seq::<String>::empty(),
            r.href is None,
            r.attrs@ =~= Seq::<(String, String)>::empty(),
            r.children@ =~= Seq::<Node>::empty(),
    {
        ElementNode {
            tag: ElementTag::Div,
            id: Vec::new(),
            class: Vec::new(),
            href: None,
            attrs: Vec::new(),
            children: Vec::new(),
        }
    }
}


/// The model of concatenated node runs is the concatenation of the models.
pub proof fn lemma_view_nodes_concat(a: Seq<Node>, b: Seq<Node>)
    ensures
        view_nodes(a + b) =~= view_nodes(a) + view_nodes(b),
{
    lemma_view_nodes_index(a);
    lemma_view_nodes_index(b);
    lemma_view_nodes_index(a + b);
    assert forall|k: int| 0 <= k < a.len() + b.len() implies view_nodes(a + b)[k] == (view_nodes(a)
        + view_nodes(b))[k] by {
        if k < a.len() {
            assert((a + b)[k] == a[k]);
        } else {
            assert((a + b)[k] == b[k - a.len()]);
        }
    }
}

} // verus!

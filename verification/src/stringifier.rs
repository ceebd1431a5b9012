//! Stringify a document of elements into its markup string.
//!
//! Without formatting the nodes are rendered back to back; with
//! formatting, block children move onto their own indented lines once a
//! single child's rendering reaches the configured width.

use vstd::prelude::*;
use vstd::string::StringExecFns;
use vstd::string::StrSliceExecFns;

use crate::html::{
    spec_node_is_block, DocumentNode, ElementNode, ElementTag, Node, SpecElement, SpecNode,
    TextNode,
};

verus! {

/// The name of a tag.
pub open spec fn spec_tag_str(tag: ElementTag) -> Seq<char> {
    match tag {
        ElementTag::Div => "div"@,
        ElementTag::Span => "span"@,
        ElementTag::P => "p"@,
        ElementTag::H1 => "h1"@,
        ElementTag::H2 => "h2"@,
        ElementTag::H3 => "h3"@,
        ElementTag::H4 => "h4"@,
        ElementTag::H5 => "h5"@,
        ElementTag::H6 => "h6"@,
        ElementTag::Ul => "ul"@,
        ElementTag::Ol => "ol"@,
        ElementTag::Li => "li"@,
        ElementTag::Blockquote => "blockquote"@,
        ElementTag::A => "a"@,
        ElementTag::Strong => "strong"@,
        ElementTag::Em => "em"@,
        ElementTag::Br => "br"@,
    }
}

/// The pieces after the first, each preceded by the separator.
pub open spec fn join_rest(ps: Seq<Seq<char>>, sep: Seq<char>, i: int) -> Seq<char>
    decreases ps.len() - i,
{
    if i < 0 || i >= ps.len() {
        Seq::empty()
    } else {
        sep + ps[i] + join_rest(ps, sep, i + 1)
    }
}

/// The pieces joined with the separator between them.
pub open spec fn spec_join_pieces(ps: Seq<Seq<char>>, sep: Seq<char>) -> Seq<char> {
    if ps.len() == 0 {
        Seq::empty()
    } else {
        ps[0] + join_rest(ps, sep, 1)
    }
}

/// The attribute pairs from position `i` on, each as one space, the name,
/// and the quoted value.
pub open spec fn spec_attr_pairs(attrs: Seq<(Seq<char>, Seq<char>)>, i: int) -> Seq<char>
    decreases attrs.len() - i,
{
    if i < 0 || i >= attrs.len() {
        Seq::empty()
    } else {
        " "@ + attrs[i].0 + "=\""@ + attrs[i].1 + "\""@ + spec_attr_pairs(attrs, i + 1)
    }
}

/// The rendered attributes of an element: its classes, its id values, its
/// href, then the remaining attribute pairs.
pub open spec fn spec_element_attrs(el: SpecElement) -> Seq<char> {
    (if el.class.len() > 0 {
        " class=\""@ + spec_join_pieces(el.class, " "@) + "\""@
    } else {
        Seq::empty()
    }) + (if el.id.len() > 0 {
        " id=\""@ + spec_join_pieces(el.id, " "@) + "\""@
    } else {
        Seq::empty()
    }) + (match el.href {
        Some(h) => " href=\""@ + h + "\""@,
        None => Seq::empty(),
    }) + spec_attr_pairs(el.attrs, 0)
}

/// The first position of a character at or after `i`, or the length.
pub open spec fn find_char(s: Seq<char>, c: char, i: int) -> int
    decreases s.len() - i,
{
    if i < 0 || i >= s.len() {
        s.len() as int
    } else if s[i] == c {
        i
    } else {
        find_char(s, c, i + 1)
    }
}

pub proof fn lemma_find_char(s: Seq<char>, c: char, i: int)
    requires
        0 <= i <= s.len(),
    ensures
        i <= find_char(s, c, i) <= s.len(),
        find_char(s, c, i) < s.len() ==> s[find_char(s, c, i)] == c,
    decreases s.len() - i,
{
    if i < s.len() && s[i] != c {
        lemma_find_char(s, c, i + 1);
    }
}

/// The text from position `i` on with four spaces before every line; a
/// line ends at a newline, dropping a carriage return just before it, and
/// a final line ending opens no further line.
pub open spec fn spec_indent_from(s: Seq<char>, i: int) -> Seq<char>
    decreases s.len() - i,
    via spec_indent_from_decreases
{
    if i < 0 || i >= s.len() {
        Seq::empty()
    } else {
        let j = find_char(s, '\n', i);
        let segend = if j < s.len() && j > i && s[j - 1] == '\r' {
            j - 1
        } else {
            j
        };
        let seg = "    "@ + s.subrange(i, segend);
        if j + 1 >= s.len() {
            seg
        } else {
            seg + "\n"@ + spec_indent_from(s, j + 1)
        }
    }
}

#[via_fn]
proof fn spec_indent_from_decreases(s: Seq<char>, i: int) {
    if 0 <= i < s.len() {
        lemma_find_char(s, '\n', i);
    }
}

/// The whole text, indented line by line.
pub open spec fn spec_add_indent(s: Seq<char>) -> Seq<char> {
    spec_indent_from(s, 0)
}

/// Whether any of the nodes is a block item.
pub open spec fn spec_any_block(ns: Seq<SpecNode>) -> bool {
    exists|k: int| 0 <= k < ns.len() && spec_node_is_block(#[trigger] ns[k])
}

/// The rendering of one node under the given format settings.
pub open spec fn spec_str_node(n: SpecNode, format: bool, width: u32) -> Seq<char>
    decreases n,
{
    match n {
        SpecNode::Element(el) => spec_str_element(el, format, width),
        SpecNode::Text(t) => t,
    }
}

/// The renderings of a run of nodes, one piece per node.
pub open spec fn spec_str_nodes(ns: Seq<SpecNode>, format: bool, width: u32) -> Seq<Seq<char>>
    decreases ns,
{
    if ns.len() == 0 {
        Seq::empty()
    } else {
        seq![spec_str_node(ns[0], format, width)] + spec_str_nodes(ns.drop_first(), format, width)
    }
}

/// The rendering of one element.
///
/// A break renders as its bare tag. Anything else renders as its tag with
/// its attributes, around its children: back to back without formatting;
/// with formatting, one child moves onto its own indented line when its
/// rendering reaches `width` characters, children without any block item
/// stay back to back, and children with one are joined each on its own
/// line and indented.
pub open spec fn spec_str_element(el: SpecElement, format: bool, width: u32) -> Seq<char>
    decreases el,
{
    let tag = spec_tag_str(el.tag);
    if el.tag == ElementTag::Br {
        "<"@ + tag + ">"@
    } else {
        let attrs = spec_element_attrs(el);
        let list = spec_str_nodes(el.children, format, width);
        let inner = if format {
            if el.children.len() == 1 {
                let child = list[0];
                if child.len() >= width {
                    "\n"@ + spec_add_indent(child) + "\n"@
                } else {
                    child
                }
            } else if !spec_any_block(el.children) {
                spec_join_pieces(list, Seq::empty())
            } else {
                "\n"@ + spec_add_indent(spec_join_pieces(list, "\n"@)) + "\n"@
            }
        } else {
            spec_join_pieces(list, Seq::empty())
        };
        "<"@ + tag + attrs + ">"@ + inner + "</"@ + tag + ">"@
    }
}

/// The rendering of a whole document: the root nodes, joined with
/// newlines when formatting and back to back otherwise.
pub open spec fn spec_stringify(ns: Seq<SpecNode>, format: bool, width: u32) -> Seq<char> {
    spec_join_pieces(
        spec_str_nodes(ns, format, width),
        if format {
            "\n"@
        } else {
            Seq::empty()
        },
    )
}

/// The renderings of a run of nodes, piece by piece.
pub proof fn lemma_str_nodes_index(ns: Seq<SpecNode>, format: bool, width: u32)
    ensures
        spec_str_nodes(ns, format, width).len() == ns.len(),
        forall|k: int|
            0 <= k < ns.len() ==> spec_str_nodes(ns, format, width)[k] == spec_str_node(
                #[trigger] ns[k],
                format,
                width,
            ),
    decreases ns,
{
    reveal_with_fuel(spec_str_nodes, 2);
    if ns.len() > 0 {
        lemma_str_nodes_index(ns.drop_first(), format, width);
        assert forall|k: int|
            0 <= k < ns.len() implies spec_str_nodes(ns, format, width)[k] == spec_str_node(
            #[trigger] ns[k],
            format,
            width,
        ) by {
            if k > 0 {
                assert(ns.drop_first()[k - 1] == ns[k]);
            }
        }
    }
}

/// The name of a tag.
pub fn tag_to_str(tag: ElementTag) -> (r: &'static str)
    ensures
        r@ == spec_tag_str(tag),
{
    match tag {
        ElementTag::Div => "div",
        ElementTag::Span => "span",
        ElementTag::P => "p",
        ElementTag::H1 => "h1",
        ElementTag::H2 => "h2",
        ElementTag::H3 => "h3",
        ElementTag::H4 => "h4",
        ElementTag::H5 => "h5",
        ElementTag::H6 => "h6",
        ElementTag::Ul => "ul",
        ElementTag::Ol => "ol",
        ElementTag::Li => "li",
        ElementTag::Blockquote => "blockquote",
        ElementTag::A => "a",
        ElementTag::Strong => "strong",
        ElementTag::Em => "em",
        ElementTag::Br => "br",
    }
}

/// Stringifier of a document into its markup string.
///
/// This carries the formatting options.
#[derive(Debug, Clone, Copy)]
pub struct Stringifier {
    /// Whether to format the output with line breaks and indentation.
    pub format: bool,
    /// The rendered width, in characters, at which a lone child moves
    /// onto its own line.
    pub width: u32,
}

impl Default for Stringifier {
    /// The default stringifier: unformatted, with a width of twenty.
    fn default() -> (r: Self)
        ensures
            !r.format,
            r.width == 20,
    {
        Self { format: false, width: 20 }
    }
}

impl Stringifier {
    /// Create a stringifier with the default configuration.
    pub fn new() -> (r: Self)
        ensures
            !r.format,
            r.width == 20,
    {
        Self::default()
    }

    /// Set whether to format the output.
    pub fn format(self, format: bool) -> (r: Self)
        ensures
            r == (Stringifier { format, ..self }),
    {
        Stringifier { format, ..self }
    }

    /// Set the width at which formatting breaks a line.
    pub fn width(self, width: u32) -> (r: Self)
        ensures
            r == (Stringifier { width, ..self }),
    {
        Stringifier { width, ..self }
    }

    /// Stringify a document.
    pub fn stringify(&self, document: DocumentNode) -> (r: String)
        ensures
            r@ == spec_stringify(document@, self.format, self.width),
    {
        let ghost ps = spec_str_nodes(document@, self.format, self.width);
        let pieces = self.node_strings(&document.root);
        proof {
            lemma_str_nodes_index(document@, self.format, self.width);
            crate::html::lemma_view_nodes_index(document.root@);
            reveal_strlit("");
            assert(""@ =~= Seq::<char>::empty());
        }
        if self.format {
            Self::join_pieces_views(&pieces, "\n", Ghost(ps))
        } else {
            Self::join_pieces_views(&pieces, "", Ghost(ps))
        }
    }

    /// Render each node to its own string.
    fn node_strings(&self, nodes: &Vec<Node>) -> (r: Vec<String>)
        ensures
            r@.len() == nodes@.len(),
            forall|k: int|
                0 <= k < nodes@.len() ==> (#[trigger] r@[k])@ == spec_str_nodes(
                    crate::html::view_nodes(nodes@),
                    self.format,
                    self.width,
                )[k],
        decreases nodes@,
    {
        let ghost ns = crate::html::view_nodes(nodes@);
        let mut out: Vec<String> = Vec::new();
        let mut i: usize = 0;
        proof {
            crate::html::lemma_view_nodes_index(nodes@);
            lemma_str_nodes_index(ns, self.format, self.width);
        }
        while i < nodes.len()
            invariant
                ns == crate::html::view_nodes(nodes@),
                ns.len() == nodes@.len(),
                forall|k: int| 0 <= k < nodes@.len() ==> ns[k] == (#[trigger] nodes@[k])@,
                forall|k: int|
                    0 <= k < ns.len() ==> spec_str_nodes(ns, self.format, self.width)[k]
                        == spec_str_node(#[trigger] ns[k], self.format, self.width),
                spec_str_nodes(ns, self.format, self.width).len() == ns.len(),
                0 <= i <= nodes@.len(),
                out@.len() == i,
                forall|k: int|
                    0 <= k < i ==> (#[trigger] out@[k])@ == spec_str_nodes(
                        ns,
                        self.format,
                        self.width,
                    )[k],
            decreases nodes@.len() - i,
        {
            let piece = self.stringify_node(&nodes[i]);
            out.push(piece);
            i = i + 1;
        }
        out
    }

    /// Join rendered pieces with a separator.
    fn join_pieces(pieces: &Vec<String>, sep: &str) -> (r: String)
        ensures
            r@ == spec_join_pieces(pieces@.map_values(|p: String| p@), sep@),
    {
        let ghost ps = pieces@.map_values(|p: String| p@);
        let mut out = String::new();
        if pieces.len() == 0 {
            return out;
        }
        out.append(pieces[0].as_str());
        proof {
            assert(ps[0] == pieces@[0]@);
            assert(out@ =~= ps[0]);
        }
        let mut i: usize = 1;
        while i < pieces.len()
            invariant
                ps == pieces@.map_values(|p: String| p@),
                ps.len() == pieces@.len(),
                1 <= i <= ps.len(),
                spec_join_pieces(ps, sep@) == out@ + join_rest(ps, sep@, i as int),
            decreases ps.len() - i,
        {
            let ghost prev = out@;
            out.append(sep);
            out.append(pieces[i].as_str());
            proof {
                assert(ps[i as int] == pieces@[i as int]@);
                assert(join_rest(ps, sep@, i as int) == sep@ + ps[i as int] + join_rest(
                    ps,
                    sep@,
                    i + 1,
                ));
                assert(prev + (sep@ + ps[i as int] + join_rest(ps, sep@, i + 1)) =~= ((prev + sep@)
                    + ps[i as int]) + join_rest(ps, sep@, i + 1));
            }
            i = i + 1;
        }
        proof {
            assert(out@ + join_rest(ps, sep@, i as int) =~= out@);
        }
        out
    }

    /// Render one node.
    fn stringify_node(&self, node: &Node) -> (r: String)
        ensures
            r@ == spec_str_node(node@, self.format, self.width),
        decreases node,
    {
        match node {
            Node::Element(element) => self.stringify_element(element),
            Node::Text(text) => Self::stringify_text(text),
        }
    }

    /// Render one text node.
    fn stringify_text(text: &TextNode) -> (r: String)
        ensures
            r@ == text.text@,
    {
        text.text.clone()
    }

    /// Whether any of the nodes is a block item.
    fn any_block(nodes: &Vec<Node>) -> (b: bool)
        ensures
            b == spec_any_block(crate::html::view_nodes(nodes@)),
    {
        let ghost ns = crate::html::view_nodes(nodes@);
        proof {
            crate::html::lemma_view_nodes_index(nodes@);
        }
        let mut i: usize = 0;
        while i < nodes.len()
            invariant
                ns == crate::html::view_nodes(nodes@),
                ns.len() == nodes@.len(),
                forall|k: int| 0 <= k < nodes@.len() ==> ns[k] == (#[trigger] nodes@[k])@,
                0 <= i <= nodes@.len(),
                forall|k: int| 0 <= k < i ==> !spec_node_is_block(#[trigger] ns[k]),
            decreases nodes@.len() - i,
        {
            if nodes[i].is_block_item() {
                return true;
            }
            i = i + 1;
        }
        false
    }

    /// Render the attributes of an element.
    fn element_attrs(element: &ElementNode) -> (r: String)
        ensures
            r@ == spec_element_attrs(element@),
    {
        let ghost ev = element@;
        let ghost c_part = if ev.class.len() > 0 {
            " class=\""@ + spec_join_pieces(ev.class, " "@) + "\""@
        } else {
            Seq::<char>::empty()
        };
        let ghost i_part = if ev.id.len() > 0 {
            " id=\""@ + spec_join_pieces(ev.id, " "@) + "\""@
        } else {
            Seq::<char>::empty()
        };
        let ghost h_part = match ev.href {
            Some(h) => " href=\""@ + h + "\""@,
            None => Seq::<char>::empty(),
        };
        let mut attrs = String::new();
        if element.class.len() > 0 {
            attrs.append(" class=\"");
            let joined = Self::join_strings(&element.class, " ");
            attrs.append(joined.as_str());
            attrs.append("\"");
        }
        proof {
            assert(attrs@ =~= c_part);
        }
        if element.id.len() > 0 {
            attrs.append(" id=\"");
            let joined = Self::join_strings(&element.id, " ");
            attrs.append(joined.as_str());
            attrs.append("\"");
        }
        proof {
            assert(attrs@ =~= c_part + i_part);
        }
        match &element.href {
            Some(href) => {
                attrs.append(" href=\"");
                attrs.append(href.as_str());
                attrs.append("\"");
            },
            None => {},
        }
        proof {
            assert(attrs@ =~= (c_part + i_part) + h_part);
        }
        let ghost base = attrs@;
        let ghost aps = crate::html::view_attrs(element.attrs@);
        let mut k: usize = 0;
        while k < element.attrs.len()
            invariant
                aps == crate::html::view_attrs(element.attrs@),
                aps.len() == element.attrs@.len(),
                0 <= k <= aps.len(),
                base + spec_attr_pairs(aps, 0) == attrs@ + spec_attr_pairs(aps, k as int),
            decreases aps.len() - k,
        {
            let ghost prev = attrs@;
            attrs.append(" ");
            attrs.append(element.attrs[k].0.as_str());
            attrs.append("=\"");
            attrs.append(element.attrs[k].1.as_str());
            attrs.append("\"");
            proof {
                assert(aps[k as int] == (element.attrs@[k as int].0@, element.attrs@[k as int].1@));
                assert(spec_attr_pairs(aps, k as int) == " "@ + aps[k as int].0 + "=\""@
                    + aps[k as int].1 + "\""@ + spec_attr_pairs(aps, k + 1));
                assert(prev + (" "@ + aps[k as int].0 + "=\""@ + aps[k as int].1 + "\""@
                    + spec_attr_pairs(aps, k + 1)) =~= ((((prev + " "@) + aps[k as int].0)
                    + "=\""@ + aps[k as int].1) + "\""@) + spec_attr_pairs(aps, k + 1));
            }
            k = k + 1;
        }
        proof {
            assert(attrs@ + spec_attr_pairs(aps, k as int) =~= attrs@);
            assert(attrs@ =~= ((c_part + i_part) + h_part) + spec_attr_pairs(aps, 0));
            assert(spec_element_attrs(ev) == c_part + i_part + h_part + spec_attr_pairs(aps, 0));
            assert(attrs@ =~= spec_element_attrs(ev));
        }
        attrs
    }

    /// Join a list of strings with a separator.
    fn join_strings(list: &Vec<String>, sep: &str) -> (r: String)
        ensures
            r@ == spec_join_pieces(crate::html::view_strings(list@), sep@),
    {
        Self::join_pieces(list, sep)
    }

    /// Render one element.
    fn stringify_element(&self, element: &ElementNode) -> (r: String)
        ensures
            r@ == spec_str_element(element@, self.format, self.width),
        decreases element,
    {
        let tag = tag_to_str(element.tag);
        if element.tag == ElementTag::Br {
            let mut out = String::new();
            out.append("<");
            out.append(tag);
            out.append(">");
            proof {
                assert(out@ =~= "<"@ + spec_tag_str(element@.tag) + ">"@);
            }
            return out;
        }
        let attrs = Self::element_attrs(element);
        let list = self.node_strings(&element.children);
        let ghost pieces = spec_str_nodes(
            crate::html::view_nodes(element.children@),
            self.format,
            self.width,
        );
        proof {
            crate::html::lemma_view_nodes_index(element.children@);
            lemma_str_nodes_index(
                crate::html::view_nodes(element.children@),
                self.format,
                self.width,
            );
            reveal_strlit("");
            assert(""@ =~= Seq::<char>::empty());
        }
        let inner: String = if self.format {
            if element.children.len() == 1 {
                proof {
                    assert(list@[0]@ == pieces[0]);
                    crate::html::lemma_view_nodes_index(element.children@);
                    lemma_str_nodes_index(
                        crate::html::view_nodes(element.children@),
                        self.format,
                        self.width,
                    );
                }
                if list[0].as_str().unicode_len() >= self.width as usize {
                    let indented = Self::add_indent(list[0].as_str());
                    let mut s = String::new();
                    s.append("\n");
                    s.append(indented.as_str());
                    s.append("\n");
                    proof {
                        assert(s@ =~= "\n"@ + spec_add_indent(pieces[0]) + "\n"@);
                    }
                    s
                } else {
                    list[0].clone()
                }
            } else if !Self::any_block(&element.children) {
                Self::join_pieces_views(&list, "", Ghost(pieces))
            } else {
                let joined = Self::join_pieces_views(&list, "\n", Ghost(pieces));
                let indented = Self::add_indent(joined.as_str());
                let mut s = String::new();
                s.append("\n");
                s.append(indented.as_str());
                s.append("\n");
                proof {
                    assert(s@ =~= "\n"@ + spec_add_indent(spec_join_pieces(pieces, "\n"@))
                        + "\n"@);
                }
                s
            }
        } else {
            Self::join_pieces_views(&list, "", Ghost(pieces))
        };
        let mut out = String::new();
        out.append("<");
        out.append(tag);
        out.append(attrs.as_str());
        out.append(">");
        out.append(inner.as_str());
        out.append("</");
        out.append(tag);
        out.append(">");
        proof {
            assert(out@ =~= "<"@ + spec_tag_str(element@.tag) + spec_element_attrs(element@)
                + ">"@ + inner@ + "</"@ + spec_tag_str(element@.tag) + ">"@);
        }
        out
    }

    /// Join rendered pieces whose views are known.
    fn join_pieces_views(pieces: &Vec<String>, sep: &str, Ghost(ps): Ghost<Seq<Seq<char>>>) -> (r:
        String)
        requires
            ps.len() == pieces@.len(),
            forall|k: int| 0 <= k < pieces@.len() ==> (#[trigger] pieces@[k])@ == ps[k],
        ensures
            r@ == spec_join_pieces(ps, sep@),
    {
        let r = Self::join_pieces(pieces, sep);
        proof {
            assert(pieces@.map_values(|p: String| p@) =~= ps);
        }
        r
    }

    /// Indent every line of the text by four spaces.
    fn add_indent(input: &str) -> (r: String)
        ensures
            r@ == spec_add_indent(input@),
    {
        let ghost s = input@;
        let n = input.unicode_len();
        let mut out = String::new();
        let mut i: usize = 0;
        while i < n
            invariant
                s == input@,
                n == s.len(),
                0 <= i <= n,
                spec_indent_from(s, 0) == out@ + spec_indent_from(s, i as int),
            decreases n - i,
        {
            let mut j = i;
            while j < n && input.get_char(j) != '\n'
                invariant
                    s == input@,
                    n == s.len(),
                    i <= j <= n,
                    find_char(s, '\n', i as int) == find_char(s, '\n', j as int),
                decreases n - j,
            {
                j = j + 1;
            }
            proof {
                assert(find_char(s, '\n', i as int) == j);
            }
            let segend = if j < n && j > i && input.get_char(j - 1) == '\r' {
                j - 1
            } else {
                j
            };
            let ghost prev = out@;
            out.append("    ");
            let seg = input.substring_char(i, segend);
            out.append(seg);
            if j < n && j + 1 < n {
                out.append("\n");
                proof {
                    assert(spec_indent_from(s, i as int) == ("    "@ + s.subrange(
                        i as int,
                        segend as int,
                    )) + "\n"@ + spec_indent_from(s, j + 1));
                    assert(prev + ((("    "@ + s.subrange(i as int, segend as int)) + "\n"@)
                        + spec_indent_from(s, j + 1)) =~= (((prev + "    "@) + s.subrange(
                        i as int,
                        segend as int,
                    )) + "\n"@) + spec_indent_from(s, j + 1));
                }
                i = j + 1;
            } else {
                proof {
                    assert(spec_indent_from(s, i as int) == "    "@ + s.subrange(
                        i as int,
                        segend as int,
                    ));
                    assert(prev + ("    "@ + s.subrange(i as int, segend as int)) =~= (prev
                        + "    "@) + s.subrange(i as int, segend as int));
                    assert(spec_indent_from(s, n as int) =~= Seq::<char>::empty());
                }
                i = n;
            }
        }
        proof {
            assert(out@ + spec_indent_from(s, i as int) =~= out@);
        }
        out
    }
}

} // verus!

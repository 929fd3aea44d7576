//! The document tree: each element has a tag name, classes, children and
//! optional text content. CSS rules are matched against these elements.

use vstd::prelude::*;

verus! {

/// One element of the document tree.
#[derive(Debug)]
pub struct Node {
    /// The element's kind, as `div` or `button`.
    pub tag: String,
    /// The element's classes; a selector such as `.card` matches one of them.
    pub classes: Vec<String>,
    /// The elements inside this one.
    pub children: Vec<Node>,
    /// The text that the element holds directly, if any.
    pub text: Option<String>,
}

/// The mathematical value of a `Node`.
pub struct NodeV {
    pub tag: Seq<char>,
    pub classes: Seq<Seq<char>>,
    pub children: Seq<NodeV>,
    pub text: Option<Seq<char>>,
}

/// The values of a sequence of strings.
pub open spec fn strings_v(v: Seq<String>) -> Seq<Seq<char>> {
    v.map_values(|x: String| x@)
}

/// The value of an optional string.
pub open spec fn opt_string_v(o: Option<String>) -> Option<Seq<char>> {
    match o {
        Some(x) => Some(x@),
        None => None,
    }
}

/// An element value with no tag, classes, children or text.
pub open spec fn empty_node_v() -> NodeV {
    NodeV { tag: Seq::empty(), classes: Seq::empty(), children: Seq::empty(), text: None }
}

/// The value of an element, with the values of all its descendants.
pub open spec fn node_v(n: Node) -> NodeV
    decreases n,
{
    NodeV {
        tag: n.tag@,
        classes: strings_v(n.classes@),
        children: Seq::new(
            n.children@.len(),
            |i: int|
                if 0 <= i < n.children@.len() {
                    node_v(n.children@[i])
                } else {
                    empty_node_v()
                },
        ),
        text: opt_string_v(n.text),
    }
}

impl View for Node {
    type V = NodeV;

    open spec fn view(&self) -> NodeV {
        node_v(*self)
    }
}

/// The values of a sequence of elements.
pub open spec fn nodes_v(v: Seq<Node>) -> Seq<NodeV> {
    v.map_values(|n: Node| n@)
}

/// The value of an element is made of the values of its parts.
pub proof fn lemma_node_view(n: Node)
    ensures
        n@ == (NodeV {
            tag: n.tag@,
            classes: strings_v(n.classes@),
            children: nodes_v(n.children@),
            text: opt_string_v(n.text),
        }),
{
    assert(n@.children.len() == n.children@.len());
    assert forall|i: int| 0 <= i < n.children@.len() implies n@.children[i] == nodes_v(
        n.children@,
    )[i] by {
        assert(n@.children[i] == n.children@[i]@);
    }
    assert(n@.children =~= nodes_v(n.children@));
}

impl Node {
    /// An element with the given tag and nothing else.
    pub fn new(tag: &str) -> (n: Node)
        ensures
            n@ == (NodeV {
                tag: tag@,
                classes: Seq::empty(),
                children: Seq::empty(),
                text: None,
            }),
    {
        let n = Node { tag: tag.to_owned(), classes: Vec::new(), children: Vec::new(), text: None };
        proof {
            lemma_node_view(n);
            assert(strings_v(n.classes@) =~= Seq::empty());
            assert(nodes_v(n.children@) =~= Seq::empty());
        }
        n
    }

    /// The element with one more class, at the end of its classes.
    pub fn class(self, name: &str) -> (n: Node)
        ensures
            n@ == (NodeV { classes: self@.classes.push(name@), ..self@ }),
    {
        proof {
            lemma_node_view(self);
        }
        let mut n = self;
        n.classes.push(name.to_owned());
        proof {
            lemma_node_view(n);
            assert(strings_v(n.classes@) =~= strings_v(self.classes@).push(name@));
        }
        n
    }

    /// The element with one more child, after its other children.
    pub fn child(self, node: Node) -> (n: Node)
        ensures
            n@ == (NodeV { children: self@.children.push(node@), ..self@ }),
    {
        proof {
            lemma_node_view(self);
        }
        let ghost node_v = node@;
        let mut n = self;
        n.children.push(node);
        proof {
            lemma_node_view(n);
            assert(nodes_v(n.children@) =~= nodes_v(self.children@).push(node_v));
        }
        n
    }

    /// The element with the given text content, in place of any earlier one.
    pub fn text(self, content: &str) -> (n: Node)
        ensures
            n@ == (NodeV { text: Some(content@), ..self@ }),
    {
        proof {
            lemma_node_view(self);
        }
        let mut n = self;
        n.text = Some(content.to_owned());
        proof {
            lemma_node_view(n);
        }
        n
    }
}

} // verus!

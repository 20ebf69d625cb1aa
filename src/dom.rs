use vstd::prelude::*;
use crate::chars::{has_word, is_word_of};
use crate::strmap::StrMap;

verus! {

/// Attributes of an element: names to values, each name at most once.
pub type AttrMap = StrMap<String>;

/// A node of a document tree; it owns its children.
#[derive(Debug, PartialEq, Eq)]
pub struct Node {
    pub children: Vec<Node>,
    pub node_type: NodeType,
}

#[derive(Debug, PartialEq, Eq)]
pub enum NodeType {
    Element(ElementData),
    Text(String),
}

#[derive(Debug, PartialEq, Eq)]
pub struct ElementData {
    pub tag_name: String,
    pub attributes: AttrMap,
}

/// A text node.
pub fn text(data: String) -> (r: Node)
    ensures
        r.children@.len() == 0,
        r.node_type == NodeType::Text(data),
{
    Node { children: Vec::new(), node_type: NodeType::Text(data) }
}

/// An element node.
pub fn elem(name: String, attrs: AttrMap, children: Vec<Node>) -> (r: Node)
    ensures
        r.children == children,
        r.node_type == (NodeType::Element(ElementData { tag_name: name, attributes: attrs })),
{
    Node { children, node_type: NodeType::Element(ElementData { tag_name: name, attributes: attrs }) }
}

impl ElementData {
    /// The value of the `id` attribute, if there is one.
    pub open spec fn id_spec(&self) -> Option<Seq<char>> {
        if self.attributes@.contains_key("id"@) {
            Some(self.attributes@["id"@]@)
        } else {
            None
        }
    }

    /// Whether `name` is one of the whitespace-separated words of the `class` attribute.
    pub open spec fn has_class_spec(&self, name: Seq<char>) -> bool {
        self.attributes@.contains_key("class"@) && is_word_of(self.attributes@["class"@]@, name)
    }

    pub fn id(&self) -> (r: Option<&String>)
        ensures
            r is None <==> self.id_spec() is None,
            r matches Some(v) ==> self.id_spec() == Some(v@),
    {
        self.attributes.get("id")
    }

    pub fn has_class(&self, name: &str) -> (r: bool)
        ensures
            r == self.has_class_spec(name@),
    {
        match self.attributes.get("class") {
            Some(v) => has_word(v.as_str(), name),
            None => false,
        }
    }
}

} // verus!

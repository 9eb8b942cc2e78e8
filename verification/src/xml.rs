//! An XML document as plain values: its nodes in document order, each with
//! its id, its parent's id, and what an element holds.
use vstd::prelude::*;

verus! {

/// One node of a parsed XML document.
#[derive(Clone, Debug)]
pub struct XmlItem {
    /// The node's id within its document.
    pub id: usize,
    /// The parent node's id; only the document root has none.
    pub parent: Option<usize>,
    /// Whether the node is an element (else text, a comment, the root...).
    pub element: bool,
    /// An element's local tag name; empty for any other node.
    pub tag: String,
    /// An element's attributes, local name and value, in document order.
    pub attributes: Vec<(String, String)>,
    /// An element's first child text, or a text or comment node's own text.
    pub text: Option<String>,
}

/// A node as plain values: id, parent id, element or not, tag, attributes,
/// text.
pub type XmlItemView = (int, Option<int>, bool, Seq<char>, Seq<(Seq<char>, Seq<char>)>, Option<Seq<char>>);

pub open spec fn item_view(x: XmlItem) -> XmlItemView {
    (
        x.id as int,
        match x.parent {
            Some(p) => Some(p as int),
            None => None,
        },
        x.element,
        x.tag@,
        x.attributes@.map_values(|a: (String, String)| (a.0@, a.1@)),
        match x.text {
            Some(t) => Some(t@),
            None => None,
        },
    )
}

pub open spec fn item_views(v: Seq<XmlItem>) -> Seq<XmlItemView> {
    v.map_values(|x: XmlItem| item_view(x))
}

/// The nodes `roxmltree` reads from a text, in document order, or its error
/// message.
pub uninterp spec fn xml_document(text: Seq<char>) -> Result<Seq<XmlItemView>, Seq<char>>;

pub open spec fn parsed_view(r: Result<Vec<XmlItem>, String>) -> Result<Seq<XmlItemView>, Seq<char>> {
    match r {
        Ok(v) => Ok(item_views(v@)),
        Err(e) => Err(e@),
    }
}

/// `roxmltree::Document::parse`, with the document's nodes (`descendants()`
/// of the root, in document order) converted one for one to plain values,
/// or the parser's error as its `Display` text. The result is named by the
/// text alone; nothing more of it is claimed.
#[verifier::external_body]
pub(crate) fn parse_xml(text: &str) -> (r: Result<Vec<XmlItem>, String>)
    ensures
        parsed_view(r) == xml_document(text@),
{
    let doc = roxmltree::Document::parse(text).map_err(|e| e.to_string())?;
    Ok(doc.descendants().map(|n| XmlItem {
        id: n.id().get_usize(),
        parent: n.parent().map(|p| p.id().get_usize()),
        element: n.is_element(),
        tag: n.tag_name().name().to_owned(),
        attributes: n.attributes().map(|a| (a.name().to_owned(), a.value().to_owned())).collect(),
        text: n.text().map(str::to_owned),
    }).collect())
}

} // verus!

//! The outline of an XML document: for every node, in document order, its
//! tag name and what its children hold. This is all of a document that the
//! feed rules read. The XML itself is parsed by `roxmltree`.

use vstd::prelude::*;

verus! {

/// `roxmltree::Error`: why a text is no well-formed XML. It is carried
/// through unopened.
#[verifier::external_type_specification]
#[verifier::external_body]
pub struct ExXmlError(roxmltree::Error);

/// A child of a node: its tag name, its text and its attributes.
pub struct XmlChild {
    /// The local tag name; empty for a child that is no element.
    pub name: String,
    /// The text of the child, if it has one.
    pub text: Option<String>,
    /// The attributes in document order, each with its local name and value.
    pub attributes: Vec<(String, String)>,
}

/// A node of a document with its children.
pub struct XmlNode {
    /// The local tag name; empty for a node that is no element.
    pub name: String,
    /// The children in document order.
    pub children: Vec<XmlChild>,
}

/// The mathematical content of an `XmlChild`.
pub ghost struct XmlChildView {
    pub name: Seq<char>,
    pub text: Option<Seq<char>>,
    pub attributes: Seq<(Seq<char>, Seq<char>)>,
}

/// The mathematical content of an `XmlNode`.
pub ghost struct XmlNodeView {
    pub name: Seq<char>,
    pub children: Seq<XmlChildView>,
}

impl View for XmlChild {
    type V = XmlChildView;

    open spec fn view(&self) -> XmlChildView {
        XmlChildView {
            name: self.name@,
            text: match self.text {
                Some(t) => Some(t@),
                None => None,
            },
            attributes: self.attributes@.map_values(|a: (String, String)| (a.0@, a.1@)),
        }
    }
}

impl View for XmlNode {
    type V = XmlNodeView;

    open spec fn view(&self) -> XmlNodeView {
        XmlNodeView {
            name: self.name@,
            children: self.children@.map_values(|c: XmlChild| c@),
        }
    }
}

/// The views of a list of nodes.
pub open spec fn node_views(nodes: Seq<XmlNode>) -> Seq<XmlNodeView> {
    nodes.map_values(|n: XmlNode| n@)
}

/// The outline of the document that `body` holds, or `None` where `body`
/// is not well-formed XML. It is what `roxmltree` makes of the text.
pub uninterp spec fn xml_outline(body: Seq<char>) -> Option<Seq<XmlNodeView>>;

/// Parses `body` with `roxmltree::Document::parse` and copies out, for each
/// node that `descendants` yields, the local `tag_name` and, for each of its
/// `children`, the local `tag_name`, the `text` and the `attributes` (local
/// name and value). Taken on trust: the result depends on `body` alone, and
/// parsing fails exactly where there is no outline.
#[verifier::external_body]
pub(crate) fn read_outline(body: &str) -> (r: Result<Vec<XmlNode>, roxmltree::Error>)
    ensures
        match r {
            Ok(nodes) => xml_outline(body@) == Some(node_views(nodes@)),
            Err(_) => xml_outline(body@) is None,
        },
{
    let doc = roxmltree::Document::parse(body)?;
    Ok(doc.descendants().map(|n| XmlNode {
        name: n.tag_name().name().to_owned(),
        children: n.children().map(|c| XmlChild {
            name: c.tag_name().name().to_owned(),
            text: c.text().map(str::to_owned),
            attributes: c.attributes().map(|a| (a.name().to_owned(), a.value().to_owned())).collect(),
        }).collect(),
    }).collect())
}

} // verus!

//! Feed entries and the rules that read them out of a document.
//!
//! A document is walked in document order. Every node named `item` gives an
//! RSS element and every node named `entry` an Atom element; each is built
//! from the node's children, one field after the other. All other nodes are
//! passed over.

use crate::dates::{parse_rfc2822, parse_rfc3339, rfc2822_seconds, rfc3339_seconds};
use crate::outline::{node_views, read_outline, xml_outline, XmlChild, XmlChildView, XmlNode, XmlNodeView};
use crate::text::same_text;
use vstd::prelude::*;

verus! {

/// Why a document gives no entries.
#[derive(Clone, Copy, Debug, PartialEq, Eq, Structural)]
pub enum FeedError {
    /// The text is not well-formed XML.
    MalformedDocument,
    /// A date field of an element holds no date of the element's schema.
    UnparseableDate,
}

/// The child tags that carry a field.
#[derive(Clone, Copy, Debug, PartialEq, Eq, Structural)]
pub enum Tag {
    Title,
    Link,
    Date,
    Updated,
    Guid,
}

/// The two kinds of element: an RSS `item` and an Atom `entry`.
#[derive(Clone, Copy, Debug, PartialEq, Eq, Structural)]
pub enum Schema {
    Rss,
    Atom,
}

/// What every element holds.
#[derive(Clone, Debug)]
pub struct Record {
    pub title: String,
    pub link: String,
    /// When the element was published, in seconds since the epoch (UTC).
    pub pub_date: i64,
}

/// An element of a feed.
#[derive(Clone, Debug)]
pub enum Element {
    Item(Record),
    Entry(Record),
}

/// A notification to present: the caller shows `title` and `text`, then
/// waits `wait_secs` seconds.
#[derive(Clone, Debug)]
pub struct Toast {
    pub title: String,
    pub text: String,
    pub wait_secs: u64,
}

/// The mathematical content of a `Record`.
pub ghost struct RecordView {
    pub title: Seq<char>,
    pub link: Seq<char>,
    pub pub_date: i64,
}

/// The mathematical content of an `Element`.
pub ghost enum ElementView {
    Item(RecordView),
    Entry(RecordView),
}

/// The mathematical content of a `Toast`.
pub ghost struct ToastView {
    pub title: Seq<char>,
    pub text: Seq<char>,
    pub wait_secs: u64,
}

impl View for Record {
    type V = RecordView;

    open spec fn view(&self) -> RecordView {
        RecordView { title: self.title@, link: self.link@, pub_date: self.pub_date }
    }
}

impl View for Element {
    type V = ElementView;

    open spec fn view(&self) -> ElementView {
        match self {
            Element::Item(r) => ElementView::Item(r@),
            Element::Entry(r) => ElementView::Entry(r@),
        }
    }
}

impl View for Toast {
    type V = ToastView;

    open spec fn view(&self) -> ToastView {
        ToastView { title: self.title@, text: self.text@, wait_secs: self.wait_secs }
    }
}

/// Two elements are equal where their timestamps are: neither the kind nor
/// the title nor the link counts.
impl PartialEq for Element {
    fn eq(&self, other: &Element) -> (r: bool) {
        self.timestamp() == other.timestamp()
    }
}

impl Eq for Element {

}

impl vstd::std_specs::cmp::PartialEqSpecImpl for Element {
    open spec fn obeys_eq_spec() -> bool {
        true
    }

    open spec fn eq_spec(&self, other: &Element) -> bool {
        self@.timestamp() == other@.timestamp()
    }
}

impl ElementView {
    /// What the element holds, whatever its kind.
    pub open spec fn record(self) -> RecordView {
        match self {
            ElementView::Item(r) => r,
            ElementView::Entry(r) => r,
        }
    }

    /// When the element was published. Two elements with the same
    /// timestamp count as the same element.
    pub open spec fn timestamp(self) -> i64 {
        self.record().pub_date
    }
}

/// The views of a list of elements.
pub open spec fn element_views(elements: Seq<Element>) -> Seq<ElementView> {
    elements.map_values(|e: Element| e@)
}

/// The record before any field is read: no title, no link, the epoch.
pub open spec fn blank() -> RecordView {
    RecordView { title: Seq::empty(), link: Seq::empty(), pub_date: 0 }
}

/// The tag that a child's name stands for, if it carries a field.
pub open spec fn tag_of(name: Seq<char>) -> Option<Tag> {
    if name == "title"@ {
        Some(Tag::Title)
    } else if name == "link"@ {
        Some(Tag::Link)
    } else if name == "guid"@ {
        Some(Tag::Guid)
    } else if name == "pubDate"@ {
        Some(Tag::Date)
    } else if name == "updated"@ {
        Some(Tag::Updated)
    } else {
        None
    }
}

/// The kind of element that a node's name stands for, if any.
pub open spec fn schema_of(name: Seq<char>) -> Option<Schema> {
    if name == "item"@ {
        Some(Schema::Rss)
    } else if name == "entry"@ {
        Some(Schema::Atom)
    } else {
        None
    }
}

/// The text of a child; empty where it has none.
pub open spec fn text_of(child: XmlChildView) -> Seq<char> {
    match child.text {
        Some(t) => t,
        None => Seq::empty(),
    }
}

/// The value of the first attribute with the given name.
pub open spec fn attribute(attributes: Seq<(Seq<char>, Seq<char>)>, name: Seq<char>) -> Option<
    Seq<char>,
>
    decreases attributes.len(),
{
    if attributes.len() == 0 {
        None
    } else if attributes[0].0 == name {
        Some(attributes[0].1)
    } else {
        attribute(attributes.drop_first(), name)
    }
}

/// The record with its date set to what the date parser found; a date that
/// the parser did not accept fails the record.
pub open spec fn with_date(record: RecordView, seconds: Option<i64>) -> Result<
    RecordView,
    FeedError,
> {
    match seconds {
        Some(t) => Ok(RecordView { title: record.title, link: record.link, pub_date: t }),
        None => Err(FeedError::UnparseableDate),
    }
}

/// What one child makes of an RSS record: `title` gives the title, `guid`
/// the link, and `pubDate` the date, written as in RFC 2822.
pub open spec fn rss_field(record: RecordView, child: XmlChildView) -> Result<
    RecordView,
    FeedError,
> {
    match tag_of(child.name) {
        Some(Tag::Title) => Ok(
            RecordView { title: text_of(child), link: record.link, pub_date: record.pub_date },
        ),
        Some(Tag::Guid) => Ok(
            RecordView { title: record.title, link: text_of(child), pub_date: record.pub_date },
        ),
        Some(Tag::Date) => with_date(record, rfc2822_seconds(text_of(child))),
        _ => Ok(record),
    }
}

/// What one child makes of an Atom record: `title` gives the title, `link`
/// the link, taken from its attribute `href` or else from its text, and
/// `updated` the date, written as in RFC 3339.
pub open spec fn atom_field(record: RecordView, child: XmlChildView) -> Result<
    RecordView,
    FeedError,
> {
    match tag_of(child.name) {
        Some(Tag::Title) => Ok(
            RecordView { title: text_of(child), link: record.link, pub_date: record.pub_date },
        ),
        Some(Tag::Link) => Ok(
            RecordView {
                title: record.title,
                link: match attribute(child.attributes, "href"@) {
                    Some(href) => href,
                    None => text_of(child),
                },
                pub_date: record.pub_date,
            },
        ),
        Some(Tag::Updated) => with_date(record, rfc3339_seconds(text_of(child))),
        _ => Ok(record),
    }
}

/// What one child makes of a record of the given kind.
pub open spec fn field(schema: Schema, record: RecordView, child: XmlChildView) -> Result<
    RecordView,
    FeedError,
> {
    match schema {
        Schema::Rss => rss_field(record, child),
        Schema::Atom => atom_field(record, child),
    }
}

/// The record that the children make, read in order from a blank record.
/// A later field replaces an earlier one; the first date that fails, fails
/// the record.
pub open spec fn record_of(schema: Schema, children: Seq<XmlChildView>) -> Result<
    RecordView,
    FeedError,
>
    decreases children.len(),
{
    if children.len() == 0 {
        Ok(blank())
    } else {
        match record_of(schema, children.drop_last()) {
            Ok(record) => field(schema, record, children.last()),
            Err(e) => Err(e),
        }
    }
}

/// A record as an element of the given kind.
pub open spec fn element_of(schema: Schema, record: RecordView) -> ElementView {
    match schema {
        Schema::Rss => ElementView::Item(record),
        Schema::Atom => ElementView::Entry(record),
    }
}

/// The elements among the nodes, in the order of the nodes. A record that
/// fails, fails them all.
pub open spec fn elements_of(nodes: Seq<XmlNodeView>) -> Result<Seq<ElementView>, FeedError>
    decreases nodes.len(),
{
    if nodes.len() == 0 {
        Ok(Seq::empty())
    } else {
        match elements_of(nodes.drop_last()) {
            Err(e) => Err(e),
            Ok(found) => match schema_of(nodes.last().name) {
                None => Ok(found),
                Some(schema) => match record_of(schema, nodes.last().children) {
                    Ok(record) => Ok(found.push(element_of(schema, record))),
                    Err(e) => Err(e),
                },
            },
        }
    }
}

/// The elements of a document, given its outline.
pub open spec fn items_of(outline: Option<Seq<XmlNodeView>>) -> Result<
    Seq<ElementView>,
    FeedError,
> {
    match outline {
        None => Err(FeedError::MalformedDocument),
        Some(nodes) => elements_of(nodes),
    }
}

/// The view of a record or of the error in its place.
pub open spec fn record_result(r: Result<Record, FeedError>) -> Result<RecordView, FeedError> {
    match r {
        Ok(record) => Ok(record@),
        Err(e) => Err(e),
    }
}

/// The view of a list of elements or of the error in its place.
pub open spec fn elements_result(r: Result<Vec<Element>, FeedError>) -> Result<
    Seq<ElementView>,
    FeedError,
> {
    match r {
        Ok(elements) => Ok(element_views(elements@)),
        Err(e) => Err(e),
    }
}

/// What can be announced: a title, a link and the time of publication.
pub trait Toastable {
    /// What the value holds.
    spec fn content(&self) -> RecordView;

    fn get_title(&self) -> (title: &str)
        ensures
            title@ == self.content().title,
    ;

    fn get_link(&self) -> (link: &str)
        ensures
            link@ == self.content().link,
    ;

    fn get_timestamp(&self) -> (timestamp: i64)
        ensures
            timestamp == self.content().pub_date,
    ;

    /// The notification that announces the value: its title, its link as
    /// the text below, and the time to wait once it is shown.
    fn show_toast(&self, wait_sec: u64) -> (toast: Toast)
        ensures
            toast@ == (ToastView {
                title: self.content().title,
                text: self.content().link,
                wait_secs: wait_sec,
            }),
    {
        Toast {
            title: self.get_title().to_owned(),
            text: self.get_link().to_owned(),
            wait_secs: wait_sec,
        }
    }
}

impl Toastable for Record {
    open spec fn content(&self) -> RecordView {
        self@
    }

    fn get_title(&self) -> (title: &str) {
        self.title.as_str()
    }

    fn get_link(&self) -> (link: &str) {
        self.link.as_str()
    }

    fn get_timestamp(&self) -> (timestamp: i64) {
        self.pub_date
    }
}

impl Tag {
    /// The tag that a child's name stands for, if it carries a field.
    pub fn from_str(name: &str) -> (tag: Option<Tag>)
        ensures
            tag == tag_of(name@),
    {
        if same_text(name, "title") {
            Some(Tag::Title)
        } else if same_text(name, "link") {
            Some(Tag::Link)
        } else if same_text(name, "guid") {
            Some(Tag::Guid)
        } else if same_text(name, "pubDate") {
            Some(Tag::Date)
        } else if same_text(name, "updated") {
            Some(Tag::Updated)
        } else {
            None
        }
    }
}

impl Schema {
    /// The kind of element that a node's name stands for, if any.
    pub fn from_name(name: &str) -> (schema: Option<Schema>)
        ensures
            schema == schema_of(name@),
    {
        if same_text(name, "item") {
            Some(Schema::Rss)
        } else if same_text(name, "entry") {
            Some(Schema::Atom)
        } else {
            None
        }
    }
}

impl XmlChild {
    /// The text of the child; empty where it has none.
    pub fn text(&self) -> (text: String)
        ensures
            text@ == text_of(self@),
    {
        match &self.text {
            Some(t) => t.clone(),
            None => String::new(),
        }
    }

    /// The value of the first attribute with the given name.
    pub fn attribute(&self, name: &str) -> (value: Option<String>)
        ensures
            match value {
                Some(v) => attribute(self@.attributes, name@) == Some(v@),
                None => attribute(self@.attributes, name@) is None,
            },
    {
        let ghost all = self@.attributes;
        let mut i: usize = 0;
        proof {
            assert(all.skip(0) =~= all);
        }
        while i < self.attributes.len()
            invariant
                i <= self.attributes.len(),
                all == self@.attributes,
                attribute(all, name@) == attribute(all.skip(i as int), name@),
            decreases self.attributes.len() - i,
        {
            let pair = &self.attributes[i];
            proof {
                assert(all.skip(i as int)[0] == (pair.0@, pair.1@));
                assert(all.skip(i as int).drop_first() =~= all.skip(i + 1));
            }
            if same_text(pair.0.as_str(), name) {
                return Some(pair.1.clone());
            }
            i = i + 1;
        }
        None
    }
}

impl Record {
    /// The record before any field is read.
    pub fn blank() -> (record: Record)
        ensures
            record@ == blank(),
    {
        Record { title: String::new(), link: String::new(), pub_date: 0 }
    }

    /// The record with its date set to what the date parser found: `parsed`
    /// is the parser's answer for the text of a date field.
    pub fn dated(self, parsed: Result<i64, chrono::ParseError>) -> (r: Result<Record, FeedError>)
        ensures
            record_result(r) == with_date(
                self@,
                match parsed {
                    Ok(seconds) => Some(seconds),
                    Err(_) => None,
                },
            ),
    {
        match parsed {
            Ok(seconds) => Ok(Record { title: self.title, link: self.link, pub_date: seconds }),
            Err(_) => Err(FeedError::UnparseableDate),
        }
    }

    /// Reads one child into an RSS record.
    pub fn rss_field(self, child: &XmlChild) -> (r: Result<Record, FeedError>)
        ensures
            record_result(r) == rss_field(self@, child@),
    {
        match Tag::from_str(child.name.as_str()) {
            Some(Tag::Title) => Ok(
                Record { title: child.text(), link: self.link, pub_date: self.pub_date },
            ),
            Some(Tag::Guid) => Ok(
                Record { title: self.title, link: child.text(), pub_date: self.pub_date },
            ),
            Some(Tag::Date) => {
                let text = child.text();
                self.dated(parse_rfc2822(text.as_str()))
            },
            _ => Ok(self),
        }
    }

    /// Reads one child into an Atom record.
    pub fn atom_field(self, child: &XmlChild) -> (r: Result<Record, FeedError>)
        ensures
            record_result(r) == atom_field(self@, child@),
    {
        match Tag::from_str(child.name.as_str()) {
            Some(Tag::Title) => Ok(
                Record { title: child.text(), link: self.link, pub_date: self.pub_date },
            ),
            Some(Tag::Link) => {
                let link = match child.attribute("href") {
                    Some(href) => href,
                    None => child.text(),
                };
                Ok(Record { title: self.title, link, pub_date: self.pub_date })
            },
            Some(Tag::Updated) => {
                let text = child.text();
                self.dated(parse_rfc3339(text.as_str()))
            },
            _ => Ok(self),
        }
    }

    /// The record that the children make, read in order from a blank
    /// record.
    pub fn from_children(schema: Schema, children: &Vec<XmlChild>) -> (r: Result<
        Record,
        FeedError,
    >)
        ensures
            record_result(r) == record_of(schema, children@.map_values(|c: XmlChild| c@)),
    {
        let ghost all = children@.map_values(|c: XmlChild| c@);
        let mut record = Record::blank();
        let mut i: usize = 0;
        proof {
            assert(all.take(0) =~= Seq::<XmlChildView>::empty());
        }
        while i < children.len()
            invariant
                i <= children.len(),
                all == children@.map_values(|c: XmlChild| c@),
                record_of(schema, all.take(i as int)) == Ok::<RecordView, FeedError>(record@),
            decreases children.len() - i,
        {
            proof {
                assert(all.take(i + 1).drop_last() =~= all.take(i as int));
                assert(all.take(i + 1).last() == children[i as int]@);
            }
            let next = match schema {
                Schema::Rss => record.rss_field(&children[i]),
                Schema::Atom => record.atom_field(&children[i]),
            };
            match next {
                Ok(changed) => {
                    record = changed;
                },
                Err(e) => {
                    proof {
                        lemma_record_fails(schema, all, i + 1);
                    }
                    return Err(e);
                },
            }
            i = i + 1;
        }
        proof {
            assert(all.take(children.len() as int) =~= all);
        }
        Ok(record)
    }
}

/// A record that has failed after some of its children fails as a whole,
/// with the same error.
pub proof fn lemma_record_fails(schema: Schema, children: Seq<XmlChildView>, upto: int)
    requires
        0 <= upto <= children.len(),
        record_of(schema, children.take(upto)) is Err,
    ensures
        record_of(schema, children) == record_of(schema, children.take(upto)),
    decreases children.len() - upto,
{
    if upto < children.len() {
        assert(children.take(upto + 1).drop_last() =~= children.take(upto));
        lemma_record_fails(schema, children, upto + 1);
    } else {
        assert(children.take(upto) =~= children);
    }
}

/// Elements that have failed after some of the nodes fail as a whole, with
/// the same error.
pub proof fn lemma_elements_fail(nodes: Seq<XmlNodeView>, upto: int)
    requires
        0 <= upto <= nodes.len(),
        elements_of(nodes.take(upto)) is Err,
    ensures
        elements_of(nodes) == elements_of(nodes.take(upto)),
    decreases nodes.len() - upto,
{
    if upto < nodes.len() {
        assert(nodes.take(upto + 1).drop_last() =~= nodes.take(upto));
        lemma_elements_fail(nodes, upto + 1);
    } else {
        assert(nodes.take(upto) =~= nodes);
    }
}

impl Element {
    /// A record as an element of the given kind.
    pub fn new(schema: Schema, record: Record) -> (e: Element)
        ensures
            e@ == element_of(schema, record@),
    {
        match schema {
            Schema::Rss => Element::Item(record),
            Schema::Atom => Element::Entry(record),
        }
    }

    /// What the element holds, whatever its kind.
    pub fn inner(&self) -> (record: &Record)
        ensures
            record@ == self@.record(),
    {
        match self {
            Element::Item(r) => r,
            Element::Entry(r) => r,
        }
    }

    /// When the element was published, in seconds since the epoch (UTC).
    pub fn timestamp(&self) -> (t: i64)
        ensures
            t == self@.timestamp(),
    {
        self.inner().get_timestamp()
    }

    /// The title of the element.
    pub fn title(&self) -> (t: &str)
        ensures
            t@ == self@.record().title,
    {
        self.inner().get_title()
    }

    /// The link of the element.
    pub fn link(&self) -> (l: &str)
        ensures
            l@ == self@.record().link,
    {
        self.inner().get_link()
    }

    /// The notification that announces the element: its title, its link as
    /// the text below, and the time to wait once it is shown.
    pub fn show_toast(&self, wait_sec: u64) -> (toast: Toast)
        ensures
            toast@ == toast_of(self@, wait_sec),
    {
        self.inner().show_toast(wait_sec)
    }
}

/// The notification that announces an element.
pub open spec fn toast_of(element: ElementView, wait_secs: u64) -> ToastView {
    ToastView { title: element.record().title, text: element.record().link, wait_secs }
}

/// The elements among the nodes of an outline, in document order.
pub fn elements_of_nodes(nodes: &Vec<XmlNode>) -> (r: Result<Vec<Element>, FeedError>)
    ensures
        elements_result(r) == elements_of(node_views(nodes@)),
{
    let ghost all = node_views(nodes@);
    let mut found: Vec<Element> = Vec::new();
    let mut i: usize = 0;
    proof {
        assert(all.take(0) =~= Seq::<XmlNodeView>::empty());
        assert(element_views(found@) =~= Seq::<ElementView>::empty());
    }
    while i < nodes.len()
        invariant
            i <= nodes.len(),
            all == node_views(nodes@),
            elements_of(all.take(i as int)) == Ok::<Seq<ElementView>, FeedError>(
                element_views(found@),
            ),
        decreases nodes.len() - i,
    {
        let node = &nodes[i];
        proof {
            assert(all.take(i + 1).drop_last() =~= all.take(i as int));
            assert(all.take(i + 1).last() == node@);
        }
        match Schema::from_name(node.name.as_str()) {
            None => {},
            Some(schema) => {
                match Record::from_children(schema, &node.children) {
                    Ok(record) => {
                        let ghost before = element_views(found@);
                        let element = Element::new(schema, record);
                        found.push(element);
                        proof {
                            assert(element_views(found@) =~= before.push(element@));
                        }
                    },
                    Err(e) => {
                        proof {
                            lemma_elements_fail(all, i + 1);
                        }
                        return Err(e);
                    },
                }
            },
        }
        i = i + 1;
    }
    proof {
        assert(all.take(nodes.len() as int) =~= all);
    }
    Ok(found)
}

/// The entries of a feed document: one element for each `item` and each
/// `entry` of the document, in document order. A text that is no
/// well-formed XML gives `MalformedDocument`, and a date that cannot be
/// read gives `UnparseableDate`.
pub fn parse_items(body: &str) -> (r: Result<Vec<Element>, FeedError>)
    ensures
        elements_result(r) == items_of(xml_outline(body@)),
{
    match read_outline(body) {
        Ok(nodes) => elements_of_nodes(&nodes),
        Err(_) => Err(FeedError::MalformedDocument),
    }
}

} // verus!

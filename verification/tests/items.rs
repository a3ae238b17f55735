use feedwatch::item::{
    elements_of_nodes, parse_items, Element, FeedError, Record, Schema, Tag, Toastable,
};
use feedwatch::outline::{XmlChild, XmlNode};

fn child(name: &str, text: Option<&str>, attributes: &[(&str, &str)]) -> XmlChild {
    XmlChild {
        name: name.to_string(),
        text: text.map(|t| t.to_string()),
        attributes: attributes.iter().map(|(k, v)| (k.to_string(), v.to_string())).collect(),
    }
}

fn node(name: &str, children: Vec<XmlChild>) -> XmlNode {
    XmlNode { name: name.to_string(), children }
}

fn record(title: &str, link: &str, pub_date: i64) -> Record {
    Record { title: title.to_string(), link: link.to_string(), pub_date }
}

fn fields(e: &Element) -> (&str, &str, i64) {
    (e.title(), e.link(), e.timestamp())
}

#[test]
fn rss_sample() {
    let body = "<rss><channel><item><pubDate>Mon, 13 Jan 2025 15:04:31 -0000</pubDate>\
                <guid>http://x/1</guid><title>T</title></item></channel></rss>";
    let items = parse_items(body).unwrap();
    assert_eq!(items.len(), 1);
    assert!(matches!(items[0], Element::Item(_)));
    assert_eq!(items[0].title(), "T");
    assert_eq!(items[0].link(), "http://x/1");
    assert_eq!(items[0].timestamp(), 1736780671);
}

#[test]
fn atom_sample() {
    let body = "<feed><entry><updated>2025-01-13T00:00:00+09:00</updated>\
                <link href=\"http://y/2\"/><title>U</title></entry></feed>";
    let items = parse_items(body).unwrap();
    assert_eq!(items.len(), 1);
    assert!(matches!(items[0], Element::Entry(_)));
    assert_eq!(items[0].title(), "U");
    assert_eq!(items[0].link(), "http://y/2");
    assert_eq!(items[0].timestamp(), 1736694000);
}

#[test]
fn elements_come_in_document_order() {
    let body = "<root>\
        <item><title>a</title><pubDate>Tue, 1 Jul 2003 10:52:37 +0200</pubDate></item>\
        <x><entry><title>b</title><updated>1996-12-19T16:39:57-08:00</updated></entry></x>\
        <item><title>c</title></item>\
        </root>";
    let items = parse_items(body).unwrap();
    assert_eq!(items.len(), 3);
    assert_eq!(fields(&items[0]), ("a", "", 1057049557));
    assert_eq!(fields(&items[1]), ("b", "", 851042397));
    assert_eq!(fields(&items[2]), ("c", "", 0));
    assert!(matches!(items[1], Element::Entry(_)));
}

#[test]
fn malformed_document_is_refused() {
    assert_eq!(parse_items("").unwrap_err(), FeedError::MalformedDocument);
    assert_eq!(parse_items("<a><b></a>").unwrap_err(), FeedError::MalformedDocument);
    assert_eq!(parse_items("plain text").unwrap_err(), FeedError::MalformedDocument);
    assert_eq!(parse_items("<item>").unwrap_err(), FeedError::MalformedDocument);
}

#[test]
fn unparseable_date_fails_the_document() {
    let rss = "<r><item><title>ok</title></item><item><pubDate>yesterday</pubDate></item></r>";
    assert_eq!(parse_items(rss).unwrap_err(), FeedError::UnparseableDate);
    let atom = "<r><entry><updated>Mon, 13 Jan 2025 15:04:31 -0000</updated></entry></r>";
    assert_eq!(parse_items(atom).unwrap_err(), FeedError::UnparseableDate);
    let mixed = "<r><item><pubDate>2025-01-13T00:00:00+09:00</pubDate></item></r>";
    assert_eq!(parse_items(mixed).unwrap_err(), FeedError::UnparseableDate);
    let empty = "<r><item><pubDate/></item></r>";
    assert_eq!(parse_items(empty).unwrap_err(), FeedError::UnparseableDate);
}

#[test]
fn document_without_elements_is_empty() {
    assert!(parse_items("<rss><channel><title>t</title></channel></rss>").unwrap().is_empty());
    assert!(parse_items("<Item><title>t</title></Item>").unwrap().is_empty());
}

#[test]
fn missing_fields_are_blank() {
    let items = parse_items("<r><item/><entry/></r>").unwrap();
    assert_eq!(items.len(), 2);
    assert_eq!(fields(&items[0]), ("", "", 0));
    assert_eq!(fields(&items[1]), ("", "", 0));
}

#[test]
fn rss_link_is_the_guid() {
    let body = "<r><item><link>http://l</link><guid>http://g</guid><updated>x</updated></item></r>";
    let items = parse_items(body).unwrap();
    assert_eq!(fields(&items[0]), ("", "http://g", 0));
}

#[test]
fn atom_link_is_href_or_text() {
    let body = "<r><entry><link href=\"http://h\">http://t</link></entry>\
                <entry><link rel=\"x\">http://t</link></entry>\
                <entry><link/></entry>\
                <entry><guid>http://g</guid><pubDate>x</pubDate></entry></r>";
    let items = parse_items(body).unwrap();
    assert_eq!(items[0].link(), "http://h");
    assert_eq!(items[1].link(), "http://t");
    assert_eq!(items[2].link(), "");
    assert_eq!(fields(&items[3]), ("", "", 0));
}

#[test]
fn later_fields_replace_earlier_ones() {
    let body = "<r><item><title>a</title><title>b</title><title/></item></r>";
    let items = parse_items(body).unwrap();
    assert_eq!(items[0].title(), "");
    let body = "<r><item><title>a</title><other/><title>b</title></item></r>";
    assert_eq!(parse_items(body).unwrap()[0].title(), "b");
}

#[test]
fn text_with_entities_and_cdata() {
    let body = "<r><item><title>a &amp; b</title><guid><![CDATA[http://x/?a=1&b=2]]></guid></item></r>";
    let items = parse_items(body).unwrap();
    assert_eq!(items[0].title(), "a & b");
    assert_eq!(items[0].link(), "http://x/?a=1&b=2");
}

#[test]
fn namespaces_do_not_count() {
    let body = "<feed xmlns=\"http://www.w3.org/2005/Atom\"><entry><title>n</title>\
                <updated>2025-01-13T00:00:00Z</updated></entry></feed>";
    let items = parse_items(body).unwrap();
    assert_eq!(fields(&items[0]), ("n", "", 1736726400));
}

#[test]
fn elements_equal_by_timestamp_alone() {
    let a = Element::Item(record("a", "x", 5));
    let b = Element::Entry(record("b", "y", 5));
    let c = Element::Item(record("a", "x", 6));
    assert!(a == b);
    assert!(a != c);
}

#[test]
fn tags_and_schemas() {
    assert_eq!(Tag::from_str("title"), Some(Tag::Title));
    assert_eq!(Tag::from_str("link"), Some(Tag::Link));
    assert_eq!(Tag::from_str("guid"), Some(Tag::Guid));
    assert_eq!(Tag::from_str("pubDate"), Some(Tag::Date));
    assert_eq!(Tag::from_str("updated"), Some(Tag::Updated));
    assert_eq!(Tag::from_str("pubdate"), None);
    assert_eq!(Tag::from_str(""), None);
    assert_eq!(Tag::from_str("titles"), None);
    assert_eq!(Schema::from_name("item"), Some(Schema::Rss));
    assert_eq!(Schema::from_name("entry"), Some(Schema::Atom));
    assert_eq!(Schema::from_name("items"), None);
}

#[test]
fn records_from_children() {
    let children = vec![
        child("title", Some("T"), &[]),
        child("", Some("  "), &[]),
        child("guid", Some("G"), &[]),
        child("link", Some("L"), &[("href", "H")]),
    ];
    let rss = Record::from_children(Schema::Rss, &children).unwrap();
    assert_eq!((rss.title.as_str(), rss.link.as_str(), rss.pub_date), ("T", "G", 0));
    let atom = Record::from_children(Schema::Atom, &children).unwrap();
    assert_eq!((atom.title.as_str(), atom.link.as_str(), atom.pub_date), ("T", "H", 0));
}

#[test]
fn first_href_counts() {
    let c = child("link", None, &[("rel", "a"), ("href", "1"), ("href", "2")]);
    assert_eq!(c.attribute("href"), Some("1".to_string()));
    assert_eq!(c.attribute("rel"), Some("a".to_string()));
    assert_eq!(c.attribute("none"), None);
    assert_eq!(c.text(), "");
    assert_eq!(child("x", Some("t"), &[]).text(), "t");
}

#[test]
fn dated_records() {
    let r = record("t", "l", 1);
    let good = chrono::DateTime::parse_from_rfc3339("1970-01-01T00:01:40Z").map(|d| d.timestamp());
    let dated = r.clone().dated(good).unwrap();
    assert_eq!((dated.title.as_str(), dated.link.as_str(), dated.pub_date), ("t", "l", 100));
    let bad = chrono::DateTime::parse_from_rfc3339("no").map(|d| d.timestamp());
    assert_eq!(r.dated(bad).unwrap_err(), FeedError::UnparseableDate);
}

#[test]
fn elements_of_an_outline() {
    let nodes = vec![
        node("", vec![]),
        node("rss", vec![child("item", None, &[])]),
        node("item", vec![child("title", Some("a"), &[]), child("pubDate", Some("Thu, 01 Jan 1970 00:00:07 GMT"), &[])]),
        node("title", vec![child("", Some("a"), &[])]),
        node("entry", vec![child("link", Some("t"), &[("href", "h")]), child("updated", Some("1970-01-01T00:00:09Z"), &[])]),
    ];
    let found = elements_of_nodes(&nodes).unwrap();
    assert_eq!(found.len(), 2);
    assert_eq!(fields(&found[0]), ("a", "", 7));
    assert_eq!(fields(&found[1]), ("", "h", 9));
    let failing = vec![
        node("item", vec![]),
        node("entry", vec![child("updated", Some("never"), &[])]),
        node("item", vec![]),
    ];
    assert_eq!(elements_of_nodes(&failing).unwrap_err(), FeedError::UnparseableDate);
    assert!(elements_of_nodes(&vec![]).unwrap().is_empty());
}

#[test]
fn toast_of_an_element() {
    let e = Element::Entry(record("title", "http://link", 3));
    let toast = e.show_toast(5);
    assert_eq!(toast.title, "title");
    assert_eq!(toast.text, "http://link");
    assert_eq!(toast.wait_secs, 5);
}

#[test]
fn new_element_by_schema() {
    assert!(matches!(Element::new(Schema::Rss, record("", "", 0)), Element::Item(_)));
    assert!(matches!(Element::new(Schema::Atom, record("", "", 0)), Element::Entry(_)));
    let blank = Record::blank();
    assert_eq!((blank.title.as_str(), blank.link.as_str(), blank.pub_date), ("", "", 0));
}

#[test]
fn inner_record_of_an_element() {
    let e = Element::Item(record("t", "l", 9));
    assert_eq!(e.inner().get_title(), "t");
    assert_eq!(e.inner().get_link(), "l");
    assert_eq!(e.inner().get_timestamp(), 9);
    let toast = e.inner().show_toast(2);
    assert_eq!((toast.title.as_str(), toast.text.as_str(), toast.wait_secs), ("t", "l", 2));
    let f = Element::Entry(record("u", "m", -4));
    assert_eq!(f.inner().pub_date, -4);
    assert_eq!(f.timestamp(), -4);
}

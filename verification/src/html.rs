//! Reading a workshop listing page.  The page is HTML, which the `select`
//! crate parses; what the page lists is decided here, over the attributes
//! of the document's nodes.
use select::document::Document;
use select::node::Node;
use select::predicate::{Class, Predicate};
use vstd::prelude::*;

verus! {

/// A parsed HTML document of the `select` crate, as a value that is
/// carried about and asked through the functions below.
#[verifier::external_type_specification]
#[verifier::external_body]
pub struct ExDocument(select::document::Document);

/// A node of a parsed document of the `select` crate.
#[verifier::external_type_specification]
#[verifier::external_body]
pub struct ExNode<'a>(select::node::Node<'a>);

/// The attributes that `Node::attr` reports of a node: from the
/// attribute's name to its value.  A node that is no element has none.
pub uninterp spec fn attributes_of(node: Node) -> Map<Seq<char>, Seq<char>>;

/// For each node of the document, in document order, its attributes.
pub uninterp spec fn node_attributes(document: Document) -> Seq<Map<Seq<char>, Seq<char>>>;

/// The attributes, node by node, of the document that `Document::from`
/// makes of a text.
pub uninterp spec fn html_attributes(text: Seq<char>) -> Seq<Map<Seq<char>, Seq<char>>>;

/// Whether the predicate `Class` matches a node with these attributes: the
/// node's `class` attribute lists the class.
pub uninterp spec fn class_listed(attributes: Map<Seq<char>, Seq<char>>, class: Seq<char>) -> bool;

/// `Document::from` on a `&str`.  The parser accepts every text; the
/// contract only names the attributes of the nodes that it makes.
#[verifier::external_body]
fn parse_document(text: &str) -> (document: Document)
    ensures
        node_attributes(document) == html_attributes(text@),
{
    Document::from(text)
}

/// The length of `Document::nodes`: the number of nodes.
#[verifier::external_body]
fn node_count(document: &Document) -> (n: usize)
    ensures
        n == node_attributes(*document).len(),
{
    document.nodes.len()
}

/// `Document::nth`: the node at `index`, or `None` where the document has
/// no more than `index` nodes.
#[verifier::external_body]
fn node_at<'a>(document: &'a Document, index: usize) -> (node: Option<Node<'a>>)
    ensures
        node is Some <==> index < node_attributes(*document).len(),
        node matches Some(n) ==> attributes_of(n) == node_attributes(*document)[index as int],
{
    document.nth(index)
}

/// `Node::attr`: the value of the node's attribute `name`, or `None`
/// where the node has no such attribute.
#[verifier::external_body]
fn node_attr(node: &Node, name: &str) -> (value: Option<String>)
    ensures
        value is Some <==> attributes_of(*node).dom().contains(name@),
        value matches Some(v) ==> v@ == attributes_of(*node)[name@],
{
    match node.attr(name) {
        Some(value) => Some(value.to_string()),
        None => None,
    }
}

/// `Class::matches`: whether the node has the class.
#[verifier::external_body]
fn node_has_class(node: &Node, class: &str) -> (b: bool)
    ensures
        b == class_listed(attributes_of(*node), class@),
{
    Class(class).matches(node)
}

/// The name of the attribute that identifies an element.
pub open spec fn id_attribute() -> Seq<char> {
    seq!['i', 'd']
}

/// The id of the element that a page without items shows.
pub open spec fn no_items_id() -> Seq<char> {
    seq!['n', 'o', '_', 'i', 't', 'e', 'm', 's']
}

/// The class of the elements that stand for a listed item.
pub open spec fn item_class() -> Seq<char> {
    seq!['u', 'g', 'c']
}

/// The name of the attribute that holds a listed item's id.
pub open spec fn item_id_attribute() -> Seq<char> {
    seq![
        'd',
        'a',
        't',
        'a',
        '-',
        'p',
        'u',
        'b',
        'l',
        'i',
        's',
        'h',
        'e',
        'd',
        'f',
        'i',
        'l',
        'e',
        'i',
        'd',
    ]
}

/// Whether a node with these attributes is the mark of a page without
/// items.
pub open spec fn marks_no_items(attributes: Map<Seq<char>, Seq<char>>) -> bool {
    attributes.dom().contains(id_attribute()) && attributes[id_attribute()] == no_items_id()
}

/// Whether some node says that the page has no items.
pub open spec fn says_no_items(nodes: Seq<Map<Seq<char>, Seq<char>>>) -> bool {
    exists|i: int| 0 <= i < nodes.len() && marks_no_items(#[trigger] nodes[i])
}

/// Whether a node with these attributes stands for a listed item and
/// tells the item's id.
pub open spec fn tells_item(attributes: Map<Seq<char>, Seq<char>>) -> bool {
    class_listed(attributes, item_class()) && attributes.dom().contains(item_id_attribute())
}

/// The ids of the listed items, in document order.
pub open spec fn listed_ids(nodes: Seq<Map<Seq<char>, Seq<char>>>) -> Seq<Seq<char>>
    decreases nodes.len(),
{
    if nodes.len() == 0 {
        Seq::empty()
    } else if tells_item(nodes.last()) {
        listed_ids(nodes.drop_last()).push(nodes.last()[item_id_attribute()])
    } else {
        listed_ids(nodes.drop_last())
    }
}

/// What a page lists: nothing at all where it says so, else the ids of
/// its items.
pub open spec fn listing(nodes: Seq<Map<Seq<char>, Seq<char>>>) -> Option<Seq<Seq<char>>> {
    if says_no_items(nodes) {
        None
    } else {
        Some(listed_ids(nodes))
    }
}

/// The characters of a list of ids that may be absent.
pub open spec fn ids_text(ids: Option<Vec<String>>) -> Option<Seq<Seq<char>>> {
    match ids {
        Some(list) => Some(list.deep_view()),
        None => None,
    }
}

/// What the listing page `body` lists: `None` where the page says that it
/// has no items, else the ids of its items in document order.
pub fn parse_listing(body: &str) -> (r: Option<Vec<String>>)
    ensures
        ids_text(r) == listing(html_attributes(body@)),
{
    proof {
        reveal_strlit("id");
        reveal_strlit("no_items");
        reveal_strlit("ugc");
        reveal_strlit("data-publishedfileid");
        assert("id"@ =~= id_attribute());
        assert("no_items"@ =~= no_items_id());
        assert("ugc"@ =~= item_class());
        assert("data-publishedfileid"@ =~= item_id_attribute());
    }
    let document: Document = parse_document(body);
    let ghost nodes = node_attributes(document);
    let count: usize = node_count(&document);
    let marker: String = "no_items".to_owned();
    let mut ids: Vec<String> = Vec::new();
    let mut i: usize = 0;
    assert(nodes.take(0) =~= Seq::empty());
    while i < count
        invariant
            i <= count,
            count == nodes.len(),
            nodes == node_attributes(document),
            nodes == html_attributes(body@),
            marker@ == no_items_id(),
            "id"@ == id_attribute(),
            "ugc"@ == item_class(),
            "data-publishedfileid"@ == item_id_attribute(),
            forall|j: int| 0 <= j < i ==> !marks_no_items(#[trigger] nodes[j]),
            ids.deep_view() == listed_ids(nodes.take(i as int)),
        decreases count - i,
    {
        let ghost before = ids.deep_view();
        match node_at(&document, i) {
            Some(node) => {
                let id: Option<String> = node_attr(&node, "id");
                let is_marker: bool = match id {
                    Some(value) => value == marker,
                    None => false,
                };
                if is_marker {
                    assert(marks_no_items(nodes[i as int]));
                    return None;
                }
                if node_has_class(&node, "ugc") {
                    match node_attr(&node, "data-publishedfileid") {
                        Some(item) => {
                            ids.push(item);
                            assert(ids.deep_view() =~= before.push(item@));
                        },
                        None => {},
                    }
                }
            },
            None => {},
        }
        proof {
            let next = nodes.take(i as int + 1);
            assert(next.drop_last() =~= nodes.take(i as int));
            assert(next.last() == nodes[i as int]);
        }
        i = i + 1;
    }
    assert(nodes.take(count as int) =~= nodes);
    assert(!says_no_items(nodes));
    Some(ids)
}

} // verus!

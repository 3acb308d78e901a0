//! Loading a topology from TOML text.
//!
//! One trusted call parses the text and hands the document over as plain
//! data, read to the depth the engine uses; its result is a named function of
//! the text alone.  Everything downstream — finding the `clients` list,
//! building node specifications, checking identities — is verified code, and
//! `parse_topology`'s contract ties its result, and its choice of error, to
//! that named parse result.

use vstd::prelude::*;

use toml::Value;
use toml::Value::{Array, Boolean, Integer};

use crate::errors::{ConfigError, ErrView};
use crate::input::RawItem::{NotTable, Row};
use crate::input::RawTop::{Items, NotList};
use crate::model::{str_eq, NodeSpec, Topology};
use crate::value::AttributeValue;
use crate::value::AttributeValue::{Bool, Int, Other, Str};

verus! {

/// One element of a parsed top-level list: a table's entries in iteration
/// order, with scalar values kept and any deeper shape as `Other`; or the
/// mark that the element was not a table.
pub enum RawItem {
    Row(Vec<(String, AttributeValue)>),
    NotTable,
}

/// One top-level entry's value as parsed: the elements of a list, or the
/// mark that the value was not a list.  The engine reads no other shape at
/// top level.
pub enum RawTop {
    Items(Vec<RawItem>),
    NotList,
}

/// What parsing yields on given text, read to the depth the engine uses: the
/// top-level table's entries in iteration order, each list value as its
/// elements, each table element as its entries with scalar values kept and
/// every other shape as `Other`; `None` when the text is not well-formed
/// TOML.  The parse result is a function of the text alone.
pub uninterp spec fn parsed_doc(s: Seq<char>) -> Option<Vec<(String, RawTop)>>;

/// Relies on `toml::Table`'s `FromStr` (`str::parse`) for the parse, and on
/// `toml::map::Map::iter`, which for the default map walks entries in
/// ascending key order.  A syntax error's message is carried over.
#[verifier::external_body]
fn parse_document(text: &str) -> (r: Result<Vec<(String, RawTop)>, String>)
    ensures
        match r {
            Ok(d) => parsed_doc(text@) == Some(d),
            Err(_) => parsed_doc(text@) is None,
        },
{
    let t = match text.parse::<toml::Table>() { Ok(t) => t, Err(e) => return Err(e.to_string()) };
    Ok(t.iter().map(|(k, v)| (k.clone(), match v {
        Array(a) => Items(a.iter().map(|x| match x {
            Value::Table(m) => Row(m.iter().map(|(n, w)| (n.clone(), match w {
                Value::String(s) => Str(s.clone()),
                Integer(i) => Int(*i),
                Boolean(b) => Bool(*b),
                _ => Other,
            })).collect()),
            _ => NotTable,
        }).collect()),
        _ => NotList,
    })).collect())
}

/// The first value bound to `key` among the document's top-level entries.
pub open spec fn top_lookup(doc: Seq<(String, RawTop)>, key: Seq<char>) -> Option<RawTop>
    decreases doc.len(),
{
    if doc.len() == 0 {
        None
    } else if doc[0].0@ == key {
        Some(doc[0].1)
    } else {
        top_lookup(doc.drop_first(), key)
    }
}

/// The position of the first list element that is not a table.
pub open spec fn first_non_table(items: Seq<RawItem>) -> Option<int>
    decreases items.len(),
{
    if items.len() == 0 {
        None
    } else if !(items[0] is Row) {
        Some(0)
    } else {
        match first_non_table(items.drop_first()) {
            Some(i) => Some(i + 1),
            None => None,
        }
    }
}

/// The node specifications of a list of parsed rows, in order.
pub open spec fn nodes_of_items(items: Seq<RawItem>) -> Seq<NodeSpec>
    decreases items.len(),
{
    if items.len() == 0 {
        Seq::empty()
    } else {
        let rest = nodes_of_items(items.drop_last());
        match items.last() {
            RawItem::Row(attrs) => rest.push(NodeSpec { attrs }),
            RawItem::NotTable => rest,
        }
    }
}

/// The position of the first node without a valid identity.
pub open spec fn first_without_identity(nodes: Seq<NodeSpec>) -> Option<int>
    decreases nodes.len(),
{
    if nodes.len() == 0 {
        None
    } else if nodes[0].identity_of() is None {
        Some(0)
    } else {
        match first_without_identity(nodes.drop_first()) {
            Some(i) => Some(i + 1),
            None => None,
        }
    }
}

/// What loading a parsed document yields: the nodes of the `clients` list
/// when every check passes, else the first failure in loading order — no
/// `clients` key, a non-list value, a non-table element, a node without a
/// valid identity.
pub open spec fn spec_topology(doc: Seq<(String, RawTop)>) -> Result<Seq<NodeSpec>, ErrView> {
    match top_lookup(doc, "clients"@) {
        None => Err(ErrView::MissingClients),
        Some(RawTop::NotList) => Err(ErrView::ClientsNotList),
        Some(RawTop::Items(items)) => match first_non_table(items@) {
            Some(i) => Err(ErrView::NodeNotTable(i)),
            None => match first_without_identity(nodes_of_items(items@)) {
                Some(i) => Err(ErrView::MissingIdentity(i)),
                None => Ok(nodes_of_items(items@)),
            },
        },
    }
}

proof fn lemma_first_without_identity_at(nodes: Seq<NodeSpec>, i: int)
    requires
        0 <= i < nodes.len(),
        nodes[i].identity_of() is None,
        forall|j: int| 0 <= j < i ==> (#[trigger] nodes[j]).identity_of() is Some,
    ensures
        first_without_identity(nodes) == Some(i),
    decreases i,
{
    if i > 0 {
        lemma_first_without_identity_at(nodes.drop_first(), i - 1);
    }
}

proof fn lemma_first_without_identity_none(nodes: Seq<NodeSpec>)
    requires
        forall|j: int| 0 <= j < nodes.len() ==> (#[trigger] nodes[j]).identity_of() is Some,
    ensures
        first_without_identity(nodes) is None,
    decreases nodes.len(),
{
    if nodes.len() > 0 {
        lemma_first_without_identity_none(nodes.drop_first());
    }
}

/// The position of the first top-level entry bound to `key`.
fn find_top(doc: &Vec<(String, RawTop)>, key: &str) -> (r: Option<usize>)
    ensures
        match r {
            Some(i) => i < doc@.len() && top_lookup(doc@, key@) == Some(doc@[i as int].1),
            None => top_lookup(doc@, key@) is None,
        },
{
    let n = doc.len();
    let mut i: usize = 0;
    proof {
        assert(doc@.skip(0) =~= doc@);
    }
    while i < n
        invariant
            n == doc.len(),
            i <= n,
            top_lookup(doc@, key@) == top_lookup(doc@.skip(i as int), key@),
        decreases n - i,
    {
        proof {
            assert(doc@.skip(i as int)[0] == doc@[i as int]);
        }
        if str_eq(doc[i].0.as_str(), key) {
            return Some(i);
        }
        proof {
            assert(doc@.skip(i as int).drop_first() =~= doc@.skip(i as int + 1));
        }
        i = i + 1;
    }
    proof {
        assert(doc@.skip(n as int) =~= Seq::<(String, RawTop)>::empty());
    }
    None
}

/// Parses TOML text and builds the topology it describes: the value of the
/// top-level `clients` key, an ordered list of tables, each table one node.
/// Succeeds exactly when the text parses and the parsed document passes
/// every loading check; each error names its cause, and any returned
/// topology satisfies the identity invariant.
pub fn parse_topology(text: &str) -> (r: Result<Topology, ConfigError>)
    ensures
        ({
            let p = parsed_doc(text@);
            match r {
                Ok(t) => {
                    &&& p matches Some(d) && spec_topology(d@) == Ok::<_, ErrView>(t.nodes@)
                    &&& t.wf()
                },
                Err(e) => match p {
                    None => e@ matches ErrView::Syntax(_),
                    Some(d) => spec_topology(d@) == Err::<Seq<NodeSpec>, _>(e@),
                },
            }
        }),
{
    let mut doc = match parse_document(text) {
        Ok(d) => d,
        Err(message) => {
            return Err(ConfigError::Syntax { message });
        },
    };
    let ghost doc0 = doc;
    let ghost docg = doc@;
    let idx = match find_top(&doc, "clients") {
        Some(i) => i,
        None => {
            return Err(ConfigError::MissingClients);
        },
    };
    let (_key, top) = doc.remove(idx);
    assert(top_lookup(docg, "clients"@) == Some(docg[idx as int].1));
    let items = match top {
        RawTop::NotList => {
            return Err(ConfigError::ClientsNotList);
        },
        RawTop::Items(items) => items,
    };
    let ghost itemsg = items@;
    let mut items = items;
    let m = items.len();
    let mut nodes: Vec<NodeSpec> = Vec::new();
    let mut i: usize = 0;
    proof {
        assert(itemsg.skip(0) =~= itemsg);
        assert(itemsg.take(0) =~= Seq::<RawItem>::empty());
    }
    while i < m
        invariant
            m == itemsg.len(),
            i <= m,
            parsed_doc(text@) == Some(doc0) && doc0@ == docg,
            top_lookup(docg, "clients"@) matches Some(tv) && tv matches RawTop::Items(iv) && iv@
                == itemsg,
            items@ == itemsg.skip(i as int),
            nodes@ == nodes_of_items(itemsg.take(i as int)),
            (match first_non_table(itemsg.skip(i as int)) {
                Some(j) => first_non_table(itemsg) == Some(i + j),
                None => first_non_table(itemsg) is None,
            }),
        decreases m - i,
    {
        proof {
            assert(itemsg.skip(i as int)[0] == itemsg[i as int]);
            assert(itemsg.skip(i as int).drop_first() =~= itemsg.skip(i as int + 1));
            assert(items@.remove(0) =~= items@.drop_first());
            assert(itemsg.take(i as int + 1).drop_last() =~= itemsg.take(i as int));
            assert(itemsg.take(i as int + 1).last() == itemsg[i as int]);
        }
        let item = items.remove(0);
        match item {
            RawItem::Row(attrs) => {
                nodes.push(NodeSpec { attrs });
            },
            RawItem::NotTable => {
                proof {
                    assert(first_non_table(itemsg) == Some(i as int));
                }
                return Err(ConfigError::NodeNotTable { index: i });
            },
        }
        i = i + 1;
    }
    proof {
        assert(itemsg.take(m as int) =~= itemsg);
        assert(itemsg.skip(m as int) =~= Seq::<RawItem>::empty());
    }
    match Topology::new(nodes) {
        Ok(t) => {
            proof {
                lemma_first_without_identity_none(t.nodes@);
            }
            Ok(t)
        },
        Err(e) => {
            proof {
                let i = choose|i: int|
                    {
                        &&& 0 <= i < nodes_of_items(itemsg).len()
                        &&& (#[trigger] nodes_of_items(itemsg)[i]).identity_of() is None
                        &&& e@ == ErrView::MissingIdentity(i)
                        &&& forall|j: int|
                            0 <= j < i ==> (#[trigger] nodes_of_items(itemsg)[j]).identity_of()
                                is Some
                    };
                lemma_first_without_identity_at(nodes_of_items(itemsg), i);
            }
            Err(e)
        },
    }
}

} // verus!

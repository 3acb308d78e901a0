//! The topology model: nodes, their attributes, and lookup by identity.

use vstd::prelude::*;

use crate::errors::{ConfigError, ErrView};
use crate::value::AttributeValue;

verus! {

/// The marker that opens every private/control attribute name.
pub open spec fn private_marker() -> char {
    '_'
}

/// The name of the identity attribute.
pub open spec fn identity_key() -> Seq<char> {
    "_name"@
}

/// The name of the routing-flag attribute.
pub open spec fn route_key() -> Seq<char> {
    "_route"@
}

/// The name of the address attribute the route rewrite reads.
pub open spec fn address_key() -> Seq<char> {
    "Address"@
}

/// The closed set of relational attribute names: the attributes that describe
/// a point-to-point relationship to another node.
pub open spec fn relational_keys() -> Set<Seq<char>> {
    set!["Endpoint"@, "AllowedIPs"@, "PublicKey"@, "PresharedKey"@, "PersistentKeepalive"@]
}

/// A private/control attribute name: one opening with the reserved marker.
/// Such an attribute steers generation and never appears in output.
pub open spec fn is_private_key(k: Seq<char>) -> bool {
    k.len() > 0 && k[0] == private_marker()
}

pub open spec fn is_relational_key(k: Seq<char>) -> bool {
    relational_keys().contains(k)
}

/// A local attribute name: neither private nor relational.  Local attributes
/// are emitted verbatim as interface directives.
pub open spec fn is_local_key(k: Seq<char>) -> bool {
    !is_private_key(k) && !is_relational_key(k)
}

/// Equality of string slices, by their characters.
pub(crate) fn str_eq(a: &str, b: &str) -> (r: bool)
    ensures
        r == (a@ == b@),
{
    String::from_str(a) == String::from_str(b)
}

/// Whether this attribute name opens with the private marker.
pub fn key_is_private(k: &str) -> (r: bool)
    ensures
        r == is_private_key(k@),
{
    if k.unicode_len() == 0 {
        false
    } else {
        k.get_char(0) == '_'
    }
}

/// Whether this attribute name is a member of the closed relational set.
pub fn key_is_relational(k: &str) -> (r: bool)
    ensures
        r == is_relational_key(k@),
{
    let r = str_eq(k, "Endpoint") || str_eq(k, "AllowedIPs") || str_eq(k, "PublicKey") || str_eq(
        k,
        "PresharedKey",
    ) || str_eq(k, "PersistentKeepalive");
    proof {
        assert(is_relational_key(k@) ==> r);
    }
    r
}

/// The first value bound to `key`, scanning the pairs in order.
pub open spec fn lookup(attrs: Seq<(String, AttributeValue)>, key: Seq<char>) -> Option<
    AttributeValue,
>
    decreases attrs.len(),
{
    if attrs.len() == 0 {
        None
    } else if attrs[0].0@ == key {
        Some(attrs[0].1)
    } else {
        lookup(attrs.drop_first(), key)
    }
}

/// One network participant: an unordered mapping from attribute name to
/// value, kept as a vector of pairs in the source document's enumeration
/// order.  That order determines emission order and nothing else.
pub struct NodeSpec {
    pub attrs: Vec<(String, AttributeValue)>,
}

impl NodeSpec {
    /// The node's identity: the value of the identity attribute, when that
    /// value is a non-empty string.
    pub open spec fn identity_of(self) -> Option<Seq<char>> {
        match lookup(self.attrs@, identity_key()) {
            Some(AttributeValue::Str(s)) => if s@.len() > 0 {
                Some(s@)
            } else {
                None
            },
            _ => None,
        }
    }

    /// Looks an attribute up by name, first match in order.
    pub fn get_attr(&self, key: &str) -> (r: Option<&AttributeValue>)
        ensures
            match r {
                Some(v) => lookup(self.attrs@, key@) == Some(*v),
                None => lookup(self.attrs@, key@) is None,
            },
    {
        let n = self.attrs.len();
        let mut i: usize = 0;
        proof {
            assert(self.attrs@.skip(0) =~= self.attrs@);
        }
        while i < n
            invariant
                n == self.attrs.len(),
                i <= n,
                lookup(self.attrs@, key@) == lookup(self.attrs@.skip(i as int), key@),
            decreases n - i,
        {
            proof {
                assert(self.attrs@.skip(i as int)[0] == self.attrs@[i as int]);
            }
            if str_eq(self.attrs[i].0.as_str(), key) {
                return Some(&self.attrs[i].1);
            }
            proof {
                assert(self.attrs@.skip(i as int).drop_first() =~= self.attrs@.skip(i as int + 1));
            }
            i = i + 1;
        }
        proof {
            assert(self.attrs@.skip(n as int) =~= Seq::<(String, AttributeValue)>::empty());
        }
        None
    }

    /// The node's identity as an owned string, when it has one.
    pub fn identity(&self) -> (r: Option<String>)
        ensures
            match r {
                Some(s) => self.identity_of() == Some(s@),
                None => self.identity_of() is None,
            },
    {
        match self.get_attr("_name") {
            Some(AttributeValue::Str(s)) => {
                if s.as_str().unicode_len() > 0 {
                    Some(s.clone())
                } else {
                    None
                }
            },
            _ => None,
        }
    }

    /// Whether this node's identity equals `name`.
    pub fn has_identity(&self, name: &str) -> (r: bool)
        ensures
            r == (self.identity_of() == Some(name@)),
    {
        match self.identity() {
            Some(id) => str_eq(id.as_str(), name),
            None => false,
        }
    }
}

/// The first node whose identity equals `name`, scanning in document order.
pub open spec fn find_node(nodes: Seq<NodeSpec>, name: Seq<char>) -> Option<NodeSpec>
    decreases nodes.len(),
{
    if nodes.len() == 0 {
        None
    } else if nodes[0].identity_of() == Some(name) {
        Some(nodes[0])
    } else {
        find_node(nodes.drop_first(), name)
    }
}

/// A found node's identity is the name it was found by.
pub proof fn lemma_find_node_found(nodes: Seq<NodeSpec>, name: Seq<char>)
    ensures
        find_node(nodes, name) matches Some(o) ==> o.identity_of() == Some(name),
    decreases nodes.len(),
{
    if nodes.len() > 0 && !(nodes[0].identity_of() == Some(name)) {
        lemma_find_node_found(nodes.drop_first(), name);
    }
}

/// An ordered sequence of node specifications.  Order is significant only for
/// emission: it fixes peer-block order in every generated document.
pub struct Topology {
    pub nodes: Vec<NodeSpec>,
}

impl Topology {
    /// The topology invariant: every node carries an identity attribute whose
    /// value is a non-empty string.
    pub open spec fn wf(self) -> bool {
        forall|i: int|
            0 <= i < self.nodes@.len() ==> (#[trigger] self.nodes@[i]).identity_of() is Some
    }

    /// Constructs a topology, checking the identity invariant up front.
    /// Rejects the first node without a valid identity.
    pub fn new(nodes: Vec<NodeSpec>) -> (r: Result<Topology, ConfigError>)
        ensures
            r matches Ok(t) ==> t.nodes@ == nodes@ && t.wf(),
            r is Ok <==> (forall|i: int|
                0 <= i < nodes@.len() ==> (#[trigger] nodes@[i]).identity_of() is Some),
            r matches Err(e) ==> exists|i: int|
                {
                    &&& 0 <= i < nodes@.len()
                    &&& (#[trigger] nodes@[i]).identity_of() is None
                    &&& e@ == ErrView::MissingIdentity(i)
                    &&& forall|j: int| 0 <= j < i ==> (#[trigger] nodes@[j]).identity_of() is Some
                },
    {
        let n = nodes.len();
        let mut i: usize = 0;
        while i < n
            invariant
                n == nodes.len(),
                i <= n,
                forall|j: int| 0 <= j < i ==> (#[trigger] nodes@[j]).identity_of() is Some,
            decreases n - i,
        {
            if nodes[i].identity().is_none() {
                return Err(ConfigError::MissingIdentity { index: i });
            }
            i = i + 1;
        }
        Ok(Topology { nodes })
    }

    /// Checks the topology invariant.
    pub fn well_formed(&self) -> (r: bool)
        ensures
            r == self.wf(),
    {
        let n = self.nodes.len();
        let mut i: usize = 0;
        while i < n
            invariant
                n == self.nodes.len(),
                i <= n,
                forall|j: int| 0 <= j < i ==> (#[trigger] self.nodes@[j]).identity_of() is Some,
            decreases n - i,
        {
            if self.nodes[i].identity().is_none() {
                return false;
            }
            i = i + 1;
        }
        true
    }

    /// The first node whose identity equals `name`; `NodeNotFound` when no
    /// node matches.
    pub fn find_by_identity(&self, name: &str) -> (r: Result<&NodeSpec, ConfigError>)
        ensures
            match r {
                Ok(n) => find_node(self.nodes@, name@) == Some(*n),
                Err(e) => find_node(self.nodes@, name@) is None && e@ == ErrView::NodeNotFound(
                    name@,
                ),
            },
    {
        let n = self.nodes.len();
        let mut i: usize = 0;
        proof {
            assert(self.nodes@.skip(0) =~= self.nodes@);
        }
        while i < n
            invariant
                n == self.nodes.len(),
                i <= n,
                find_node(self.nodes@, name@) == find_node(self.nodes@.skip(i as int), name@),
            decreases n - i,
        {
            proof {
                assert(self.nodes@.skip(i as int)[0] == self.nodes@[i as int]);
            }
            if self.nodes[i].has_identity(name) {
                return Ok(&self.nodes[i]);
            }
            proof {
                assert(self.nodes@.skip(i as int).drop_first() =~= self.nodes@.skip(i as int + 1));
            }
            i = i + 1;
        }
        proof {
            assert(self.nodes@.skip(n as int) =~= Seq::<NodeSpec>::empty());
        }
        Err(ConfigError::NodeNotFound { name: String::from_str(name) })
    }
}

} // verus!

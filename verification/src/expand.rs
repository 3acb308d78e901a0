//! The expansion engine: deriving one configuration document per node.

use vstd::prelude::*;

use crate::errors::{ConfigError, ErrView};
use crate::model::{
    address_key, find_node, is_local_key, is_private_key, is_relational_key, lookup, route_key,
    NodeSpec, Topology,
};
use crate::value::AttributeValue;

verus! {

/// Whether an attribute named `k` is selected for a block: for the interface
/// block (`local`) the local attributes, for a peer block the members of the
/// closed relational set.  The private-marker guard on the peer side is
/// redundant with set membership today, but stands on its own so that a
/// relational-looking private key would stay excluded.
pub open spec fn selects(k: Seq<char>, local: bool) -> bool {
    if local {
        is_local_key(k)
    } else {
        is_relational_key(k) && !is_private_key(k)
    }
}

/// One attribute line of a block.
pub open spec fn line_of(k: Seq<char>, v: AttributeValue) -> Seq<char>
    recommends
        v.is_scalar(),
{
    k + " = "@ + v.text_of()
}

/// The attribute lines of a block: one line per selected attribute, in the
/// mapping's enumeration order.
pub open spec fn block_line_seq(attrs: Seq<(String, AttributeValue)>, local: bool) -> Seq<
    Seq<char>,
>
    decreases attrs.len(),
{
    if attrs.len() == 0 {
        Seq::empty()
    } else {
        let rest = block_line_seq(attrs.drop_last(), local);
        let p = attrs.last();
        if selects(p.0@, local) {
            rest.push(line_of(p.0@, p.1))
        } else {
            rest
        }
    }
}

/// The key of the first selected attribute whose value is not a scalar, when
/// there is one.  Serialization fails fast on it.
pub open spec fn first_bad(attrs: Seq<(String, AttributeValue)>, local: bool) -> Option<Seq<char>>
    decreases attrs.len(),
{
    if attrs.len() == 0 {
        None
    } else if selects(attrs[0].0@, local) && !attrs[0].1.is_scalar() {
        Some(attrs[0].0@)
    } else {
        first_bad(attrs.drop_first(), local)
    }
}

/// Whether the routing flag is present and boolean-true.
pub open spec fn route_on(tgt: Seq<(String, AttributeValue)>) -> bool {
    lookup(tgt, route_key()) == Some(AttributeValue::Bool(true))
}

/// The position of the first `/` in `s`, or `s.len()` when there is none.
pub open spec fn first_slash(s: Seq<char>) -> int
    decreases s.len(),
{
    if s.len() == 0 {
        0
    } else if s[0] == '/' {
        0
    } else {
        1 + first_slash(s.drop_first())
    }
}

/// The network-address portion of a CIDR-notation address: everything before
/// the first `/`, the whole text when there is no `/`.
pub open spec fn strip_of(s: Seq<char>) -> Seq<char> {
    s.take(first_slash(s))
}

/// The overriding allowed-ranges line the route rewrite appends.
pub open spec fn override_line(addr: Seq<char>) -> Seq<char> {
    "AllowedIPs = "@ + strip_of(addr)
}

/// The interface block of the node named `name`: the `[Interface]` header,
/// then one line per local attribute.
pub open spec fn interface_block(name: Seq<char>, attrs: Seq<(String, AttributeValue)>) -> Result<
    Seq<Seq<char>>,
    ErrView,
> {
    match first_bad(attrs, true) {
        Some(k) => Err(ErrView::UnsupportedType(name, k)),
        None => Ok(seq!["[Interface]"@] + block_line_seq(attrs, true)),
    }
}

/// The peer block a target node with attributes `tgt` derives about the other
/// node `o`: the `[Peer]` header, one line per relational attribute of `o`,
/// and, when the target's routing flag is set, the allowed-ranges override
/// built from `o`'s own address.  The override is appended even when `o`
/// supplied an allowed-ranges attribute of its own; consumers treat the later
/// line as authoritative.
pub open spec fn peer_block(tgt: Seq<(String, AttributeValue)>, o: NodeSpec) -> Result<
    Seq<Seq<char>>,
    ErrView,
>
    recommends
        o.identity_of() is Some,
{
    let pname = match o.identity_of() {
        Some(s) => s,
        None => Seq::empty(),
    };
    match first_bad(o.attrs@, false) {
        Some(k) => Err(ErrView::UnsupportedType(pname, k)),
        None => {
            let base = seq!["[Peer]"@] + block_line_seq(o.attrs@, false);
            if route_on(tgt) {
                match lookup(o.attrs@, address_key()) {
                    Some(AttributeValue::Str(a)) => Ok(base.push(override_line(a@))),
                    _ => Err(ErrView::MissingAddress(pname)),
                }
            } else {
                Ok(base)
            }
        },
    }
}

/// The peer sections of a document for the node named `name`: for every node
/// of the topology in order, skipping every node whose identity is `name`,
/// one blank line followed by that node's peer block.
pub open spec fn peers_section(
    nodes: Seq<NodeSpec>,
    name: Seq<char>,
    tgt: Seq<(String, AttributeValue)>,
) -> Result<Seq<Seq<char>>, ErrView>
    decreases nodes.len(),
{
    if nodes.len() == 0 {
        Ok(Seq::empty())
    } else {
        let rest = peers_section(nodes.drop_last(), name, tgt);
        let o = nodes.last();
        if o.identity_of() == Some(name) {
            rest
        } else {
            match rest {
                Err(e) => Err(e),
                Ok(t) => match peer_block(tgt, o) {
                    Err(e) => Err(e),
                    Ok(b) => Ok(t + seq![Seq::<char>::empty()] + b),
                },
            }
        }
    }
}

/// The whole configuration document of the node named `name`: its interface
/// block, the peer sections, and one trailing blank line.
pub open spec fn spec_document(nodes: Seq<NodeSpec>, name: Seq<char>) -> Result<
    Seq<Seq<char>>,
    ErrView,
> {
    match find_node(nodes, name) {
        None => Err(ErrView::NodeNotFound(name)),
        Some(tgt) => match interface_block(name, tgt.attrs@) {
            Err(e) => Err(e),
            Ok(head) => match peers_section(nodes, name, tgt.attrs@) {
                Err(e) => Err(e),
                Ok(ps) => Ok(head + ps + seq![Seq::<char>::empty()]),
            },
        },
    }
}

/// The documents of the first `k` nodes, each named by its identity.
pub open spec fn gen_upto(nodes: Seq<NodeSpec>, k: int) -> Result<
    Seq<(Seq<char>, Seq<Seq<char>>)>,
    ErrView,
>
    decreases k,
{
    if k <= 0 {
        Ok(Seq::empty())
    } else {
        let o = nodes[k - 1];
        let nm = match o.identity_of() {
            Some(s) => s,
            None => Seq::empty(),
        };
        match gen_upto(nodes, k - 1) {
            Err(e) => Err(e),
            Ok(docs) => match spec_document(nodes, nm) {
                Err(e) => Err(e),
                Ok(d) => Ok(docs.push((nm, d))),
            },
        }
    }
}

/// One document per node of the topology, in document order.
pub open spec fn spec_generate_all(nodes: Seq<NodeSpec>) -> Result<
    Seq<(Seq<char>, Seq<Seq<char>>)>,
    ErrView,
> {
    gen_upto(nodes, nodes.len() as int)
}

/// What looking a peer up by name and deriving its block returns.
pub open spec fn spec_peer_config(
    nodes: Seq<NodeSpec>,
    tgt: Seq<(String, AttributeValue)>,
    name: Seq<char>,
) -> Result<Seq<Seq<char>>, ErrView> {
    match find_node(nodes, name) {
        None => Err(ErrView::NodeNotFound(name)),
        Some(o) => peer_block(tgt, o),
    }
}

proof fn lemma_peers_err_extends(
    nodes: Seq<NodeSpec>,
    name: Seq<char>,
    tgt: Seq<(String, AttributeValue)>,
    k: int,
)
    requires
        0 <= k <= nodes.len(),
        peers_section(nodes.take(k), name, tgt) is Err,
    ensures
        peers_section(nodes, name, tgt) == peers_section(nodes.take(k), name, tgt),
    decreases nodes.len() - k,
{
    if nodes.len() == k {
        assert(nodes.take(k) =~= nodes);
    } else {
        assert(nodes.drop_last().take(k) =~= nodes.take(k));
        lemma_peers_err_extends(nodes.drop_last(), name, tgt, k);
    }
}

proof fn lemma_gen_err_extends(nodes: Seq<NodeSpec>, k: int, m: int)
    requires
        0 <= k <= m,
        gen_upto(nodes, k) is Err,
    ensures
        gen_upto(nodes, m) == gen_upto(nodes, k),
    decreases m - k,
{
    if m > k {
        lemma_gen_err_extends(nodes, k, m - 1);
    }
}

/// The attribute lines of one block, or the first offending key.
fn block_body(node_name: &str, attrs: &Vec<(String, AttributeValue)>, local: bool) -> (r: Result<
    Vec<String>,
    ConfigError,
>)
    ensures
        match r {
            Ok(lines) => first_bad(attrs@, local) is None && lines.deep_view() == block_line_seq(
                attrs@,
                local,
            ),
            Err(e) => first_bad(attrs@, local) matches Some(k) && e@ == ErrView::UnsupportedType(
                node_name@,
                k,
            ),
        },
{
    let n = attrs.len();
    let mut out: Vec<String> = Vec::new();
    let mut i: usize = 0;
    proof {
        assert(attrs@.skip(0) =~= attrs@);
        assert(attrs@.take(0) =~= Seq::<(String, AttributeValue)>::empty());
        assert(out.deep_view() =~= Seq::<Seq<char>>::empty());
    }
    while i < n
        invariant
            n == attrs.len(),
            i <= n,
            out.deep_view() == block_line_seq(attrs@.take(i as int), local),
            first_bad(attrs@, local) == first_bad(attrs@.skip(i as int), local),
        decreases n - i,
    {
        proof {
            assert(attrs@.skip(i as int)[0] == attrs@[i as int]);
            assert(attrs@.skip(i as int).drop_first() =~= attrs@.skip(i as int + 1));
            assert(attrs@.take(i as int + 1).drop_last() =~= attrs@.take(i as int));
            assert(attrs@.take(i as int + 1).last() == attrs@[i as int]);
        }
        let k = &attrs[i].0;
        let selected = if local {
            !key_is_private_str(k) && !key_is_relational_str(k)
        } else {
            key_is_relational_str(k) && !key_is_private_str(k)
        };
        assert(selected == selects(k@, local));
        if selected {
            if matches!(&attrs[i].1, AttributeValue::Other) {
                return Err(
                    ConfigError::UnsupportedType {
                        node: String::from_str(node_name),
                        key: k.clone(),
                    },
                );
            }
            let text = crate::value::value_to_text(&attrs[i].1);
            let mut line = k.clone();
            line.append(" = ");
            line.append(text.as_str());
            assert(line@ == line_of(k@, attrs@[i as int].1));
            let ghost prev = out.deep_view();
            out.push(line);
            proof {
                assert(out.deep_view() =~= prev.push(line@));
            }
        }
        i = i + 1;
    }
    proof {
        assert(attrs@.take(n as int) =~= attrs@);
        assert(attrs@.skip(n as int) =~= Seq::<(String, AttributeValue)>::empty());
    }
    Ok(out)
}

fn key_is_private_str(k: &String) -> (r: bool)
    ensures
        r == is_private_key(k@),
{
    crate::model::key_is_private(k.as_str())
}

fn key_is_relational_str(k: &String) -> (r: bool)
    ensures
        r == is_relational_key(k@),
{
    crate::model::key_is_relational(k.as_str())
}

/// The network-address portion of a CIDR-notation address.
pub fn strip_mask(s: &str) -> (r: String)
    ensures
        r@ == strip_of(s@),
{
    let n = s.unicode_len();
    let mut i: usize = 0;
    proof {
        assert(s@.skip(0) =~= s@);
    }
    while i < n
        invariant
            n == s@.len(),
            i <= n,
            first_slash(s@) == i + first_slash(s@.skip(i as int)),
        decreases n - i,
    {
        proof {
            assert(s@.skip(i as int)[0] == s@[i as int]);
        }
        if s.get_char(i) == '/' {
            let r = String::from_str(s.substring_char(0, i));
            proof {
                assert(first_slash(s@.skip(i as int)) == 0);
                assert(r@ =~= s@.take(first_slash(s@)));
            }
            return r;
        }
        proof {
            assert(s@.skip(i as int).drop_first() =~= s@.skip(i as int + 1));
        }
        i = i + 1;
    }
    proof {
        assert(s@.skip(n as int) =~= Seq::<char>::empty());
        assert(first_slash(s@) == n);
    }
    let r = String::from_str(s.substring_char(0, n));
    proof {
        assert(r@ =~= s@.take(first_slash(s@)));
    }
    r
}

/// The peer block `target` derives about the node `o`.
fn peer_block_exec(target: &NodeSpec, o: &NodeSpec) -> (r: Result<Vec<String>, ConfigError>)
    requires
        o.identity_of() is Some,
    ensures
        match r {
            Ok(lines) => peer_block(target.attrs@, *o) == Ok::<_, ErrView>(lines.deep_view()),
            Err(e) => peer_block(target.attrs@, *o) == Err::<Seq<Seq<char>>, _>(e@),
        },
{
    let pname = match o.identity() {
        Some(p) => p,
        None => vstd::pervasive::unreached(),
    };
    let body = match block_body(pname.as_str(), &o.attrs, false) {
        Ok(b) => b,
        Err(e) => {
            return Err(e);
        },
    };
    let mut out: Vec<String> = Vec::new();
    out.push(String::from_str("[Peer]"));
    let ghost header = out.deep_view();
    proof {
        assert(header =~= seq!["[Peer]"@]);
    }
    let mut body = body;
    out.append(&mut body);
    proof {
        assert(out.deep_view() =~= seq!["[Peer]"@] + block_line_seq(o.attrs@, false));
    }
    let routed = match target.get_attr("_route") {
        Some(AttributeValue::Bool(b)) => *b,
        _ => false,
    };
    assert(routed == route_on(target.attrs@));
    if routed {
        match o.get_attr("Address") {
            Some(AttributeValue::Str(a)) => {
                let stripped = strip_mask(a.as_str());
                let mut line = String::from_str("AllowedIPs = ");
                line.append(stripped.as_str());
                let ghost prev = out.deep_view();
                out.push(line);
                proof {
                    assert(out.deep_view() =~= prev.push(override_line(a@)));
                }
            },
            _ => {
                return Err(ConfigError::MissingAddress { name: pname });
            },
        }
    }
    Ok(out)
}

/// The configuration document of the node whose identity is `name`: the
/// interface block from that node's local attributes, then, for every other
/// node in document order, a blank line and a peer block, then a trailing
/// blank line.
pub fn generate_config(t: &Topology, name: &str) -> (r: Result<Vec<String>, ConfigError>)
    requires
        t.wf(),
    ensures
        match r {
            Ok(lines) => spec_document(t.nodes@, name@) == Ok::<_, ErrView>(lines.deep_view()),
            Err(e) => spec_document(t.nodes@, name@) == Err::<Seq<Seq<char>>, _>(e@),
        },
{
    let tgt = match t.find_by_identity(name) {
        Ok(n) => n,
        Err(e) => {
            return Err(e);
        },
    };
    let head = match block_body(name, &tgt.attrs, true) {
        Ok(b) => b,
        Err(e) => {
            return Err(e);
        },
    };
    let mut out: Vec<String> = Vec::new();
    out.push(String::from_str("[Interface]"));
    let mut head = head;
    out.append(&mut head);
    proof {
        assert(out.deep_view() =~= seq!["[Interface]"@] + block_line_seq(tgt.attrs@, true));
    }
    let ghost head_lines = out.deep_view();

    let n = t.nodes.len();
    let mut peers: Vec<String> = Vec::new();
    let mut j: usize = 0;
    proof {
        assert(t.nodes@.take(0) =~= Seq::<NodeSpec>::empty());
        assert(peers.deep_view() =~= Seq::<Seq<char>>::empty());
    }
    while j < n
        invariant
            t.wf(),
            n == t.nodes.len(),
            j <= n,
            find_node(t.nodes@, name@) == Some(*tgt),
            first_bad(tgt.attrs@, true) is None,
            out.deep_view() == head_lines,
            head_lines == seq!["[Interface]"@] + block_line_seq(tgt.attrs@, true),
            peers_section(t.nodes@.take(j as int), name@, tgt.attrs@) == Ok::<_, ErrView>(
                peers.deep_view(),
            ),
        decreases n - j,
    {
        proof {
            assert(t.nodes@.take(j as int + 1).drop_last() =~= t.nodes@.take(j as int));
            assert(t.nodes@.take(j as int + 1).last() == t.nodes@[j as int]);
        }
        let o = &t.nodes[j];
        if !o.has_identity(name) {
            match peer_block_exec(tgt, o) {
                Ok(block) => {
                    let ghost prev = peers.deep_view();
                    peers.push(String::new());
                    let mut block = block;
                    peers.append(&mut block);
                    proof {
                        assert(peers.deep_view() =~= prev + seq![Seq::<char>::empty()]
                            + peer_block(tgt.attrs@, t.nodes@[j as int])->Ok_0);
                    }
                },
                Err(e) => {
                    proof {
                        assert(peers_section(t.nodes@.take(j as int + 1), name@, tgt.attrs@)
                            == Err::<Seq<Seq<char>>, _>(e@));
                        lemma_peers_err_extends(t.nodes@, name@, tgt.attrs@, j as int + 1);
                    }
                    return Err(e);
                },
            }
        }
        j = j + 1;
    }
    proof {
        assert(t.nodes@.take(n as int) =~= t.nodes@);
    }
    let mut peers = peers;
    out.append(&mut peers);
    out.push(String::new());
    proof {
        assert(out.deep_view() =~= head_lines + peers_section(t.nodes@, name@, tgt.attrs@)->Ok_0
            + seq![Seq::<char>::empty()]);
    }
    Ok(out)
}

/// Looks the node named `name` up and derives the peer block that a target
/// node with `target`'s attributes would emit about it.
pub fn generate_peer_config(t: &Topology, target: &NodeSpec, name: &str) -> (r: Result<
    Vec<String>,
    ConfigError,
>)
    ensures
        match r {
            Ok(lines) => spec_peer_config(t.nodes@, target.attrs@, name@) == Ok::<_, ErrView>(
                lines.deep_view(),
            ),
            Err(e) => spec_peer_config(t.nodes@, target.attrs@, name@) == Err::<Seq<Seq<char>>, _>(
                e@,
            ),
        },
{
    let o = match t.find_by_identity(name) {
        Ok(n) => n,
        Err(e) => {
            return Err(e);
        },
    };
    proof {
        crate::model::lemma_find_node_found(t.nodes@, name@);
    }
    peer_block_exec(target, o)
}

/// Derives every node's document, in document order, before anything is
/// written anywhere: one `(identity, document)` pair per node.
pub fn generate_all(t: &Topology) -> (r: Result<Vec<(String, Vec<String>)>, ConfigError>)
    requires
        t.wf(),
    ensures
        match r {
            Ok(docs) => spec_generate_all(t.nodes@) == Ok::<_, ErrView>(docs.deep_view()),
            Err(e) => spec_generate_all(t.nodes@) == Err::<Seq<(Seq<char>, Seq<Seq<char>>)>, _>(
                e@,
            ),
        },
{
    let n = t.nodes.len();
    let mut out: Vec<(String, Vec<String>)> = Vec::new();
    let mut j: usize = 0;
    proof {
        assert(out.deep_view() =~= Seq::<(Seq<char>, Seq<Seq<char>>)>::empty());
    }
    while j < n
        invariant
            t.wf(),
            n == t.nodes.len(),
            j <= n,
            gen_upto(t.nodes@, j as int) == Ok::<_, ErrView>(out.deep_view()),
        decreases n - j,
    {
        let name = match t.nodes[j].identity() {
            Some(s) => s,
            None => vstd::pervasive::unreached(),
        };
        match generate_config(t, name.as_str()) {
            Ok(doc) => {
                let ghost prev = out.deep_view();
                let ghost docv = doc.deep_view();
                out.push((name, doc));
                proof {
                    assert(out.deep_view() =~= prev.push((name@, docv)));
                }
            },
            Err(e) => {
                proof {
                    lemma_gen_err_extends(t.nodes@, j as int + 1, n as int);
                }
                return Err(e);
            },
        }
        j = j + 1;
    }
    Ok(out)
}

} // verus!

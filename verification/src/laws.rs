//! The engine's general properties, stated and proved once for all inputs.

use vstd::prelude::*;

use crate::errors::ErrView;
use crate::expand::{
    block_line_seq, first_bad, gen_upto, line_of, override_line, peer_block, peers_section,
    route_on, selects, spec_document, spec_generate_all,
};
use crate::model::{
    address_key, is_local_key, is_private_key, is_relational_key, lookup, NodeSpec,
};
use crate::value::AttributeValue;

verus! {

/// Law (completeness): when generation succeeds on a topology of N nodes, it
/// yields exactly N documents, in order, the i-th named by the i-th node's
/// identity and equal to that identity's document.
pub proof fn lemma_completeness(nodes: Seq<NodeSpec>)
    requires
        forall|i: int| 0 <= i < nodes.len() ==> (#[trigger] nodes[i]).identity_of() is Some,
    ensures
        spec_generate_all(nodes) matches Ok(docs) ==> {
            &&& docs.len() == nodes.len()
            &&& forall|i: int|
                0 <= i < nodes.len() ==> (#[trigger] nodes[i]).identity_of() == Some(docs[i].0)
            &&& forall|i: int|
                0 <= i < nodes.len() ==> spec_document(nodes, (#[trigger] docs[i]).0) == Ok::<
                    _,
                    ErrView,
                >(docs[i].1)
        },
{
    lemma_gen_upto_items(nodes, nodes.len() as int);
}

proof fn lemma_gen_upto_items(nodes: Seq<NodeSpec>, k: int)
    requires
        0 <= k <= nodes.len(),
        forall|i: int| 0 <= i < nodes.len() ==> (#[trigger] nodes[i]).identity_of() is Some,
    ensures
        gen_upto(nodes, k) matches Ok(docs) ==> {
            &&& docs.len() == k
            &&& forall|i: int|
                0 <= i < k ==> (#[trigger] nodes[i]).identity_of() == Some(docs[i].0)
            &&& forall|i: int|
                0 <= i < k ==> spec_document(nodes, (#[trigger] docs[i]).0) == Ok::<_, ErrView>(
                    docs[i].1,
                )
        },
    decreases k,
{
    if k > 0 {
        lemma_gen_upto_items(nodes, k - 1);
    }
}

/// Every attribute value of this mapping is a scalar.
pub open spec fn all_scalar(attrs: Seq<(String, AttributeValue)>) -> bool {
    forall|k: int| 0 <= k < attrs.len() ==> (#[trigger] attrs[k]).1.is_scalar()
}

/// Every attribute value of every node is a scalar.
pub open spec fn all_values_scalar(nodes: Seq<NodeSpec>) -> bool {
    forall|i: int| 0 <= i < nodes.len() ==> all_scalar((#[trigger] nodes[i]).attrs@)
}

/// Every node carries a string address attribute.
pub open spec fn addresses_present(nodes: Seq<NodeSpec>) -> bool {
    forall|i: int|
        0 <= i < nodes.len() ==> lookup((#[trigger] nodes[i]).attrs@, address_key()) matches Some(
            AttributeValue::Str(_),
        )
}

proof fn lemma_find_node_some(nodes: Seq<NodeSpec>, name: Seq<char>, ti: int)
    requires
        0 <= ti < nodes.len(),
        nodes[ti].identity_of() == Some(name),
    ensures
        crate::model::find_node(nodes, name) is Some,
    decreases nodes.len(),
{
    if !(nodes[0].identity_of() == Some(name)) {
        lemma_find_node_some(nodes.drop_first(), name, ti - 1);
    }
}

proof fn lemma_find_node_member(nodes: Seq<NodeSpec>, name: Seq<char>)
    ensures
        crate::model::find_node(nodes, name) matches Some(o) ==> exists|i: int|
            0 <= i < nodes.len() && nodes[i] == o,
    decreases nodes.len(),
{
    if nodes.len() > 0 {
        if nodes[0].identity_of() == Some(name) {
            assert(nodes[0] == crate::model::find_node(nodes, name)->Some_0);
        } else {
            lemma_find_node_member(nodes.drop_first(), name);
            if crate::model::find_node(nodes, name) is Some {
                let o = crate::model::find_node(nodes, name)->Some_0;
                let i = choose|i: int|
                    0 <= i < nodes.drop_first().len() && nodes.drop_first()[i] == o;
                assert(nodes[i + 1] == o);
            }
        }
    }
}

proof fn lemma_first_bad_none(attrs: Seq<(String, AttributeValue)>, local: bool)
    requires
        all_scalar(attrs),
    ensures
        first_bad(attrs, local) is None,
    decreases attrs.len(),
{
    if attrs.len() > 0 {
        assert(attrs[0].1.is_scalar());
        lemma_first_bad_none(attrs.drop_first(), local);
    }
}

proof fn lemma_peers_ok(sub: Seq<NodeSpec>, name: Seq<char>, tgt: Seq<(String, AttributeValue)>)
    requires
        all_values_scalar(sub),
        route_on(tgt) ==> addresses_present(sub),
    ensures
        peers_section(sub, name, tgt) is Ok,
    decreases sub.len(),
{
    if sub.len() > 0 {
        lemma_peers_ok(sub.drop_last(), name, tgt);
        let o = sub.last();
        assert(o == sub[sub.len() - 1]);
        if !(o.identity_of() == Some(name)) {
            lemma_first_bad_none(o.attrs@, false);
        }
    }
}

/// Law (success): a document derivation is owed success when every attribute
/// value in the topology is a scalar and, if the target carries the routing
/// flag, every node carries a string address attribute.  `ti` names a node
/// whose identity is `name`.
pub proof fn lemma_document_succeeds(nodes: Seq<NodeSpec>, name: Seq<char>, ti: int)
    requires
        0 <= ti < nodes.len(),
        nodes[ti].identity_of() == Some(name),
        all_values_scalar(nodes),
        forall|i: int|
            0 <= i < nodes.len() && route_on((#[trigger] nodes[i]).attrs@) ==> addresses_present(
                nodes,
            ),
    ensures
        spec_document(nodes, name) is Ok,
{
    lemma_find_node_some(nodes, name, ti);
    lemma_find_node_member(nodes, name);
    let tgt = crate::model::find_node(nodes, name)->Some_0;
    let fi = choose|i: int| 0 <= i < nodes.len() && nodes[i] == tgt;
    assert(all_scalar(tgt.attrs@));
    lemma_first_bad_none(tgt.attrs@, true);
    lemma_peers_ok(nodes, name, tgt.attrs@);
}

proof fn lemma_gen_upto_ok(nodes: Seq<NodeSpec>, k: int)
    requires
        0 <= k <= nodes.len(),
        forall|i: int| 0 <= i < nodes.len() ==> (#[trigger] nodes[i]).identity_of() is Some,
        all_values_scalar(nodes),
        forall|i: int|
            0 <= i < nodes.len() && route_on((#[trigger] nodes[i]).attrs@) ==> addresses_present(
                nodes,
            ),
    ensures
        gen_upto(nodes, k) is Ok,
    decreases k,
{
    if k > 0 {
        lemma_gen_upto_ok(nodes, k - 1);
        let o = nodes[k - 1];
        let nm = match o.identity_of() {
            Some(s) => s,
            None => Seq::empty(),
        };
        lemma_document_succeeds(nodes, nm, k - 1);
    }
}

/// Law (success of the whole run): generation of every document is owed
/// success when every node has an identity, every attribute value is a
/// scalar, and, wherever a routing flag is set, every node carries a string
/// address attribute.  Together with the completeness law this gives exactly
/// N documents, one per identity.
pub proof fn lemma_generation_succeeds(nodes: Seq<NodeSpec>)
    requires
        forall|i: int| 0 <= i < nodes.len() ==> (#[trigger] nodes[i]).identity_of() is Some,
        all_values_scalar(nodes),
        forall|i: int|
            0 <= i < nodes.len() && route_on((#[trigger] nodes[i]).attrs@) ==> addresses_present(
                nodes,
            ),
    ensures
        spec_generate_all(nodes) is Ok,
{
    lemma_gen_upto_ok(nodes, nodes.len() as int);
}

/// The nodes of the topology other than those named `name`, in order.
pub open spec fn non_self(nodes: Seq<NodeSpec>, name: Seq<char>) -> Seq<NodeSpec>
    decreases nodes.len(),
{
    if nodes.len() == 0 {
        Seq::empty()
    } else {
        let rest = non_self(nodes.drop_last(), name);
        if nodes.last().identity_of() == Some(name) {
            rest
        } else {
            rest.push(nodes.last())
        }
    }
}

/// The peer sections derived from a list of source nodes, one blank line and
/// one peer block per source, no node skipped.
pub open spec fn peers_from(
    sources: Seq<NodeSpec>,
    tgt: Seq<(String, AttributeValue)>,
) -> Result<Seq<Seq<char>>, ErrView>
    decreases sources.len(),
{
    if sources.len() == 0 {
        Ok(Seq::empty())
    } else {
        match peers_from(sources.drop_last(), tgt) {
            Err(e) => Err(e),
            Ok(t) => match peer_block(tgt, sources.last()) {
                Err(e) => Err(e),
                Ok(b) => Ok(t + seq![Seq::<char>::empty()] + b),
            },
        }
    }
}

/// Law (self-exclusion): the peer sections of a document for `name` are
/// exactly the ones derived from the other nodes — every node whose identity
/// is `name` contributes no peer block, and no remaining source has that
/// identity.
pub proof fn lemma_self_exclusion(
    nodes: Seq<NodeSpec>,
    name: Seq<char>,
    tgt: Seq<(String, AttributeValue)>,
)
    ensures
        peers_section(nodes, name, tgt) == peers_from(non_self(nodes, name), tgt),
        forall|i: int|
            0 <= i < non_self(nodes, name).len() ==> (#[trigger] non_self(nodes, name)[i]).identity_of()
                != Some(name),
    decreases nodes.len(),
{
    if nodes.len() > 0 {
        lemma_self_exclusion(nodes.drop_last(), name, tgt);
        if !(nodes.last().identity_of() == Some(name)) {
            assert(non_self(nodes, name).drop_last() =~= non_self(nodes.drop_last(), name));
        }
    }
}

/// Law (attribute partition): a block's lines are exactly the lines of the
/// attributes its selection rule keeps, in order — the interface block keeps
/// the local attributes, a peer block keeps the relational non-private ones —
/// and no key is both local and relational, so no attribute line can appear
/// on both sides.
pub proof fn lemma_attribute_partition(attrs: Seq<(String, AttributeValue)>)
    ensures
        block_line_seq(attrs, true) == attrs.filter(
            |p: (String, AttributeValue)| is_local_key(p.0@),
        ).map_values(|p: (String, AttributeValue)| line_of(p.0@, p.1)),
        block_line_seq(attrs, false) == attrs.filter(
            |p: (String, AttributeValue)| is_relational_key(p.0@) && !is_private_key(p.0@),
        ).map_values(|p: (String, AttributeValue)| line_of(p.0@, p.1)),
        forall|k: Seq<char>| !(is_local_key(k) && is_relational_key(k)),
{
    lemma_block_is_filtered(attrs, true);
    lemma_block_is_filtered(attrs, false);
    assert((|p: (String, AttributeValue)| is_local_key(p.0@)) =~= (
    |p: (String, AttributeValue)| selects(p.0@, true)));
    assert((|p: (String, AttributeValue)| is_relational_key(p.0@) && !is_private_key(p.0@)) =~= (
    |p: (String, AttributeValue)| selects(p.0@, false)));
}

proof fn lemma_block_is_filtered(attrs: Seq<(String, AttributeValue)>, local: bool)
    ensures
        block_line_seq(attrs, local) == attrs.filter(
            |p: (String, AttributeValue)| selects(p.0@, local),
        ).map_values(|p: (String, AttributeValue)| line_of(p.0@, p.1)),
    decreases attrs.len(),
{
    reveal(Seq::filter);
    let pred = |p: (String, AttributeValue)| selects(p.0@, local);
    let f = |p: (String, AttributeValue)| line_of(p.0@, p.1);
    if attrs.len() == 0 {
        assert(attrs.filter(pred).map_values(f) =~= Seq::<Seq<char>>::empty());
    } else {
        lemma_block_is_filtered(attrs.drop_last(), local);
        if pred(attrs.last()) {
            assert(attrs.filter(pred).map_values(f) =~= attrs.drop_last().filter(pred).map_values(
                f,
            ).push(f(attrs.last())));
        } else {
            assert(attrs.filter(pred).map_values(f) =~= attrs.drop_last().filter(pred).map_values(
                f,
            ));
        }
    }
}

/// Law (privacy): no line of a generated document opens with the private
/// marker, so no private/control attribute ever reaches the output.
pub proof fn lemma_privacy(nodes: Seq<NodeSpec>, name: Seq<char>)
    ensures
        spec_document(nodes, name) matches Ok(lines) ==> forall|i: int|
            0 <= i < lines.len() ==> !is_private_key(#[trigger] lines[i]),
{
    if spec_document(nodes, name) is Ok {
        let tgt = crate::model::find_node(nodes, name)->0;
        lemma_block_lines_not_private(tgt.attrs@, true);
        lemma_peers_not_private(nodes, name, tgt.attrs@);
        proof_headers_not_private();
        let head = seq!["[Interface]"@] + block_line_seq(tgt.attrs@, true);
        let ps = peers_section(nodes, name, tgt.attrs@)->Ok_0;
        let lines = head + ps + seq![Seq::<char>::empty()];
        assert forall|i: int| 0 <= i < lines.len() implies !is_private_key(
            #[trigger] lines[i],
        ) by {
            if i == 0 {
                assert(lines[i] == "[Interface]"@);
            } else if i < head.len() {
                assert(lines[i] == block_line_seq(tgt.attrs@, true)[i - 1]);
            } else if i < head.len() + ps.len() {
                assert(lines[i] == ps[i - head.len()]);
            } else {
                assert(lines[i] =~= Seq::<char>::empty());
            }
        }
    }
}

proof fn proof_headers_not_private()
    ensures
        !is_private_key("[Interface]"@),
        !is_private_key("[Peer]"@),
        forall|a: Seq<char>| !is_private_key(#[trigger] override_line(a)),
{
    reveal_strlit("[Interface]");
    reveal_strlit("[Peer]");
    reveal_strlit("AllowedIPs = ");
    assert forall|a: Seq<char>| !is_private_key(#[trigger] override_line(a)) by {
        assert(override_line(a)[0] == 'A');
    }
}

proof fn lemma_line_not_private(k: Seq<char>, v: AttributeValue)
    requires
        !is_private_key(k),
    ensures
        !is_private_key(line_of(k, v)),
{
    reveal_strlit(" = ");
    if k.len() > 0 {
        assert(line_of(k, v)[0] == k[0]);
    } else {
        assert(line_of(k, v)[0] == ' ');
    }
}

proof fn lemma_block_lines_not_private(attrs: Seq<(String, AttributeValue)>, local: bool)
    ensures
        forall|i: int|
            0 <= i < block_line_seq(attrs, local).len() ==> !is_private_key(
                #[trigger] block_line_seq(attrs, local)[i],
            ),
    decreases attrs.len(),
{
    if attrs.len() > 0 {
        lemma_block_lines_not_private(attrs.drop_last(), local);
        let p = attrs.last();
        if selects(p.0@, local) {
            lemma_line_not_private(p.0@, p.1);
            assert forall|i: int| 0 <= i < block_line_seq(attrs, local).len() implies
                !is_private_key(#[trigger] block_line_seq(attrs, local)[i]) by {
                if i < block_line_seq(attrs.drop_last(), local).len() {
                    assert(block_line_seq(attrs, local)[i] == block_line_seq(
                        attrs.drop_last(),
                        local,
                    )[i]);
                }
            }
        }
    }
}

proof fn lemma_peer_block_not_private(tgt: Seq<(String, AttributeValue)>, o: NodeSpec)
    ensures
        peer_block(tgt, o) matches Ok(lines) ==> forall|i: int|
            0 <= i < lines.len() ==> !is_private_key(#[trigger] lines[i]),
{
    if peer_block(tgt, o) is Ok {
        proof_headers_not_private();
        lemma_block_lines_not_private(o.attrs@, false);
        let base = seq!["[Peer]"@] + block_line_seq(o.attrs@, false);
        let lines = peer_block(tgt, o)->Ok_0;
        assert forall|i: int| 0 <= i < lines.len() implies !is_private_key(
            #[trigger] lines[i],
        ) by {
            if i == 0 {
                assert(lines[i] == "[Peer]"@);
            } else if i < base.len() {
                assert(lines[i] == block_line_seq(o.attrs@, false)[i - 1]);
            }
        }
    }
}

proof fn lemma_peers_not_private(
    nodes: Seq<NodeSpec>,
    name: Seq<char>,
    tgt: Seq<(String, AttributeValue)>,
)
    ensures
        peers_section(nodes, name, tgt) matches Ok(lines) ==> forall|i: int|
            0 <= i < lines.len() ==> !is_private_key(#[trigger] lines[i]),
    decreases nodes.len(),
{
    if nodes.len() > 0 && peers_section(nodes, name, tgt) is Ok {
        lemma_peers_not_private(nodes.drop_last(), name, tgt);
        let o = nodes.last();
        if !(o.identity_of() == Some(name)) {
            lemma_peer_block_not_private(tgt, o);
            let t = peers_section(nodes.drop_last(), name, tgt)->Ok_0;
            let b = peer_block(tgt, o)->Ok_0;
            let lines = peers_section(nodes, name, tgt)->Ok_0;
            assert forall|i: int| 0 <= i < lines.len() implies !is_private_key(
                #[trigger] lines[i],
            ) by {
                if i < t.len() {
                    assert(lines[i] == t[i]);
                } else if i == t.len() {
                    assert(lines[i] =~= Seq::<char>::empty());
                } else {
                    assert(lines[i] == b[i - t.len() - 1]);
                }
            }
        }
    }
}

/// The number of lines equal to `l`.
pub open spec fn count_of(lines: Seq<Seq<char>>, l: Seq<char>) -> int
    decreases lines.len(),
{
    if lines.len() == 0 {
        0
    } else {
        count_of(lines.drop_last(), l) + if lines.last() == l {
            1int
        } else {
            0
        }
    }
}

proof fn lemma_count_single(x: Seq<char>, l: Seq<char>)
    ensures
        count_of(seq![x], l) == if x == l {
            1int
        } else {
            0int
        },
{
    assert(seq![x].len() == 1);
    assert(seq![x].last() == x);
    assert(seq![x].drop_last() =~= Seq::<Seq<char>>::empty());
    assert(count_of(Seq::<Seq<char>>::empty(), l) == 0);
}

proof fn lemma_count_distributes(a: Seq<Seq<char>>, b: Seq<Seq<char>>, l: Seq<char>)
    ensures
        count_of(a + b, l) == count_of(a, l) + count_of(b, l),
    decreases b.len(),
{
    if b.len() == 0 {
        assert(a + b =~= a);
    } else {
        lemma_count_distributes(a, b.drop_last(), l);
        assert((a + b).drop_last() =~= a + b.drop_last());
        assert((a + b).last() == b.last());
    }
}

proof fn lemma_line_is_no_peer_header(k: Seq<char>, v: AttributeValue)
    ensures
        line_of(k, v) != "[Peer]"@,
{
    reveal_strlit(" = ");
    reveal_strlit("[Peer]");
    let l = line_of(k, v);
    if l == "[Peer]"@ {
        assert(l.len() == 6);
        assert(l[k.len() as int] == ' ');
        assert(k.len() < 6);
        assert(false);
    }
}

proof fn lemma_block_has_no_peer_header(attrs: Seq<(String, AttributeValue)>, local: bool)
    ensures
        count_of(block_line_seq(attrs, local), "[Peer]"@) == 0,
    decreases attrs.len(),
{
    if attrs.len() > 0 {
        lemma_block_has_no_peer_header(attrs.drop_last(), local);
        let p = attrs.last();
        if selects(p.0@, local) {
            lemma_line_is_no_peer_header(p.0@, p.1);
            assert(block_line_seq(attrs, local).drop_last() =~= block_line_seq(
                attrs.drop_last(),
                local,
            ));
            assert(block_line_seq(attrs, local).last() == line_of(p.0@, p.1));
        }
    }
}

proof fn lemma_peer_block_header_count(tgt: Seq<(String, AttributeValue)>, o: NodeSpec)
    ensures
        peer_block(tgt, o) matches Ok(lines) ==> count_of(lines, "[Peer]"@) == 1,
{
    if peer_block(tgt, o) is Ok {
        reveal_strlit("[Peer]");
        reveal_strlit("AllowedIPs = ");
        lemma_block_has_no_peer_header(o.attrs@, false);
        let base = seq!["[Peer]"@] + block_line_seq(o.attrs@, false);
        lemma_count_distributes(seq!["[Peer]"@], block_line_seq(o.attrs@, false), "[Peer]"@);
        lemma_count_single("[Peer]"@, "[Peer]"@);
        assert(count_of(base, "[Peer]"@) == 1);
        let lines = peer_block(tgt, o)->Ok_0;
        if lines != base {
            assert(lines.drop_last() =~= base);
            assert(lines.last().len() >= 13);
            assert(lines.last() != "[Peer]"@);
        }
    }
}

proof fn lemma_peers_from_count(sources: Seq<NodeSpec>, tgt: Seq<(String, AttributeValue)>)
    ensures
        peers_from(sources, tgt) matches Ok(lines) ==> count_of(lines, "[Peer]"@)
            == sources.len(),
    decreases sources.len(),
{
    if sources.len() > 0 && peers_from(sources, tgt) is Ok {
        reveal_strlit("[Peer]");
        lemma_peers_from_count(sources.drop_last(), tgt);
        let t = peers_from(sources.drop_last(), tgt)->Ok_0;
        let b = peer_block(tgt, sources.last())->Ok_0;
        lemma_peer_block_header_count(tgt, sources.last());
        lemma_count_single(Seq::<char>::empty(), "[Peer]"@);
        assert("[Peer]"@.len() == 6);
        assert(Seq::<char>::empty() != "[Peer]"@);
        lemma_count_distributes(t, seq![Seq::<char>::empty()], "[Peer]"@);
        lemma_count_distributes(t + seq![Seq::<char>::empty()], b, "[Peer]"@);
    }
}

proof fn lemma_non_self_len_when_absent(nodes: Seq<NodeSpec>, name: Seq<char>)
    requires
        forall|j: int|
            0 <= j < nodes.len() ==> (#[trigger] nodes[j]).identity_of() != Some(name),
    ensures
        non_self(nodes, name).len() == nodes.len(),
    decreases nodes.len(),
{
    if nodes.len() > 0 {
        lemma_non_self_len_when_absent(nodes.drop_last(), name);
    }
}

proof fn lemma_non_self_len(nodes: Seq<NodeSpec>, name: Seq<char>, ti: int)
    requires
        0 <= ti < nodes.len(),
        nodes[ti].identity_of() == Some(name),
        forall|j: int|
            0 <= j < nodes.len() && j != ti ==> (#[trigger] nodes[j]).identity_of() != Some(
                name,
            ),
    ensures
        non_self(nodes, name).len() == nodes.len() - 1,
    decreases nodes.len(),
{
    if ti == nodes.len() - 1 {
        lemma_non_self_len_when_absent(nodes.drop_last(), name);
    } else {
        lemma_non_self_len(nodes.drop_last(), name, ti);
    }
}

/// Law (peer-block count): when identities are unique and `name` is the
/// identity of exactly the node at `ti`, a successfully derived document
/// holds exactly one `[Peer]` header line per other node: N−1 of them.
pub proof fn lemma_peer_header_count(nodes: Seq<NodeSpec>, name: Seq<char>, ti: int)
    requires
        spec_document(nodes, name) is Ok,
        0 <= ti < nodes.len(),
        nodes[ti].identity_of() == Some(name),
        forall|j: int|
            0 <= j < nodes.len() && j != ti ==> (#[trigger] nodes[j]).identity_of() != Some(
                name,
            ),
    ensures
        spec_document(nodes, name) matches Ok(lines) && count_of(lines, "[Peer]"@) == nodes.len()
            - 1,
{
    reveal_strlit("[Peer]");
    reveal_strlit("[Interface]");
    assert(exists|t: NodeSpec| crate::model::find_node(nodes, name) == Some(t));
    let tgt = choose|tgt: NodeSpec| crate::model::find_node(nodes, name) == Some(tgt);
    lemma_self_exclusion(nodes, name, tgt.attrs@);
    lemma_peers_from_count(non_self(nodes, name), tgt.attrs@);
    lemma_non_self_len(nodes, name, ti);
    lemma_block_has_no_peer_header(tgt.attrs@, true);
    let head = seq!["[Interface]"@] + block_line_seq(tgt.attrs@, true);
    let ps = peers_section(nodes, name, tgt.attrs@)->Ok_0;
    lemma_count_single("[Interface]"@, "[Peer]"@);
    assert("[Interface]"@.len() == 11);
    assert("[Peer]"@.len() == 6);
    assert("[Interface]"@ != "[Peer]"@);
    lemma_count_single(Seq::<char>::empty(), "[Peer]"@);
    assert(Seq::<char>::empty() != "[Peer]"@);
    lemma_count_distributes(seq!["[Interface]"@], block_line_seq(tgt.attrs@, true), "[Peer]"@);
    assert(count_of(head, "[Peer]"@) == 0);
    lemma_count_distributes(head, ps, "[Peer]"@);
    lemma_count_distributes(head + ps, seq![Seq::<char>::empty()], "[Peer]"@);
}

proof fn lemma_selected_line_in_block(attrs: Seq<(String, AttributeValue)>, local: bool, i: int)
    requires
        0 <= i < attrs.len(),
        selects(attrs[i].0@, local),
    ensures
        block_line_seq(attrs, local).contains(line_of(attrs[i].0@, attrs[i].1)),
    decreases attrs.len(),
{
    let l = line_of(attrs[i].0@, attrs[i].1);
    if i == attrs.len() - 1 {
        let b = block_line_seq(attrs, local);
        assert(b[b.len() - 1] == l);
    } else {
        lemma_selected_line_in_block(attrs.drop_last(), local, i);
        let rest = block_line_seq(attrs.drop_last(), local);
        let j = choose|j: int| 0 <= j < rest.len() && rest[j] == l;
        assert(block_line_seq(attrs, local)[j] == l);
    }
}

/// Law (local line emission): every local attribute of the document's target
/// yields its own `key = value` line, and that line stands in the generated
/// document.
pub proof fn lemma_local_line_in_document(
    nodes: Seq<NodeSpec>,
    name: Seq<char>,
    tgt: NodeSpec,
    i: int,
)
    requires
        crate::model::find_node(nodes, name) == Some(tgt),
        0 <= i < tgt.attrs@.len(),
        selects(tgt.attrs@[i].0@, true),
        spec_document(nodes, name) is Ok,
    ensures
        spec_document(nodes, name) matches Ok(lines) && lines.contains(
            line_of(tgt.attrs@[i].0@, tgt.attrs@[i].1),
        ),
{
    lemma_selected_line_in_block(tgt.attrs@, true, i);
    let l = line_of(tgt.attrs@[i].0@, tgt.attrs@[i].1);
    let bls = block_line_seq(tgt.attrs@, true);
    let lines = spec_document(nodes, name)->Ok_0;
    let j = choose|j: int| 0 <= j < bls.len() && bls[j] == l;
    assert(lines[1 + j] == l);
    assert(lines.contains(l));
}

/// Law (route override): when the target's routing flag is set and the peer's
/// attributes serialize cleanly, the peer block succeeds exactly when the
/// peer carries a string address attribute, and it then ends with the
/// overriding allowed-ranges line built from that address with its mask
/// suffix removed — whatever allowed-ranges attribute the peer itself
/// supplied.
pub proof fn lemma_route_override(
    tgt: Seq<(String, AttributeValue)>,
    o: NodeSpec,
    addr: String,
)
    requires
        route_on(tgt),
        first_bad(o.attrs@, false) is None,
        lookup(o.attrs@, address_key()) == Some(AttributeValue::Str(addr)),
    ensures
        peer_block(tgt, o) matches Ok(lines) && lines.len() > 0 && lines.last() == override_line(
            addr@,
        ),
{
}

} // verus!

//! The resolution graph: one node per resolved identifier, each carrying
//! its list of dependency identifiers. Normalization sorts the node list
//! by identifier and every edge list lexicographically, so that repeated
//! runs over the same input produce identical output.

use vstd::prelude::*;
use vstd::multiset::Multiset;
use core::cmp::Ordering;
use crate::order::{
    lemma_map_to_multiset, lemma_sorted_distinct_keys_determine, lemma_sorted_multiset_determines,
    sort_by_key, sorted_keys, KeyProj, TotalOrd,
};
use crate::text::{lemma_lex_le_total_ordering, lex_le, str_cmp};

verus! {

/// One node of the resolution graph: a resolved identifier and the
/// identifiers it depends on.
#[derive(Debug, Clone, PartialEq, Eq)]
pub struct Node {
    pub id: String,
    pub dependencies: Vec<String>,
}

/// The resolution graph as the metadata source reports it.
#[derive(Debug, Clone, PartialEq, Eq)]
pub struct Resolve {
    pub nodes: Vec<Node>,
}

impl KeyProj<String> for Node {
    open spec fn proj(&self) -> String {
        self.id
    }

    fn cmp_key(&self, q: &String) -> (r: Ordering) {
        str_cmp(self.id.as_str(), q.as_str())
    }

    fn cmp_elem(&self, other: &Self) -> (r: Ordering) {
        str_cmp(self.id.as_str(), other.id.as_str())
    }
}

/// What a node says, edge order abstracted away: its identifier and the
/// multiset of its dependency identifiers.
#[verifier::ext_equal]
pub struct NodeContent {
    pub id: String,
    pub dependencies: Multiset<String>,
}

/// A node's content.
pub open spec fn node_content(n: Node) -> NodeContent {
    NodeContent { id: n.id, dependencies: n.dependencies@.to_multiset() }
}

/// A node rendered fully, down to the order of its edges, by view.
pub open spec fn node_rendering(n: Node) -> (Seq<char>, Seq<Seq<char>>) {
    (n.id@, n.dependencies@.map_values(|s: String| s@))
}

/// The graph is in normalized form: nodes sorted by identifier, every
/// edge list sorted lexicographically.
pub open spec fn normalized(r: Resolve) -> bool {
    &&& sorted_keys::<Node, String>(r.nodes@)
    &&& forall|i: int|
        0 <= i < r.nodes@.len() ==> sorted_keys::<String, String>(
            (#[trigger] r.nodes@[i]).dependencies@,
        )
}

/// No two nodes share an identifier.
pub open spec fn distinct_node_ids(s: Seq<Node>) -> bool {
    forall|i: int, j: int| 0 <= i < j < s.len() ==> s[i].id@ != s[j].id@
}

/// Sort the node list by identifier and each node's edge list
/// lexicographically. Every node keeps its content: only the order of
/// nodes and of edges changes.
pub fn normalize(resolve: &mut Resolve)
    ensures
        normalized(*final(resolve)),
        final(resolve).nodes@.len() == old(resolve).nodes@.len(),
        final(resolve).nodes@.map_values(|n: Node| node_content(n)).to_multiset() == old(
            resolve,
        ).nodes@.map_values(|n: Node| node_content(n)).to_multiset(),
{
    sort_by_key::<Node, String>(&mut resolve.nodes);
    proof {
        lemma_map_to_multiset(
            old(resolve).nodes@,
            resolve.nodes@,
            |n: Node| node_content(n),
        );
    }
    let ghost snap = resolve.nodes@;
    let mut i: usize = 0;
    while i < resolve.nodes.len()
        invariant
            resolve.nodes@.len() == snap.len(),
            sorted_keys::<Node, String>(snap),
            i <= snap.len(),
            forall|k: int| 0 <= k < snap.len() ==> (#[trigger] resolve.nodes@[k]).id == snap[k].id,
            forall|k: int|
                0 <= k < snap.len() ==> node_content(#[trigger] resolve.nodes@[k])
                    == node_content(snap[k]),
            forall|k: int|
                0 <= k < i ==> sorted_keys::<String, String>(
                    (#[trigger] resolve.nodes@[k]).dependencies@,
                ),
        decreases snap.len() - i,
    {
        let ghost before = resolve.nodes@;
        let node = resolve.nodes.remove(i);
        let Node { id, dependencies } = node;
        let mut deps = dependencies;
        sort_by_key::<String, String>(&mut deps);
        let newnode = Node { id, dependencies: deps };
        let ghost nn = newnode;
        resolve.nodes.insert(i, newnode);
        proof {
            assert(resolve.nodes@ =~= before.update(i as int, nn));
            assert(node_content(nn) =~= node_content(before[i as int]));
        }
        i = i + 1;
    }
    proof {
        assert forall|p: int, q: int| 0 <= p < q < resolve.nodes@.len() implies (
        #[trigger] resolve.nodes@[p].proj().cmp_spec(&resolve.nodes@[q].proj()))
            != Ordering::Greater by {
            assert(snap[p].proj().cmp_spec(&snap[q].proj()) != Ordering::Greater);
            assert(resolve.nodes@[p].id == snap[p].id);
            assert(resolve.nodes@[q].id == snap[q].id);
        }
        assert(resolve.nodes@.map_values(|n: Node| node_content(n)) =~= snap.map_values(
            |n: Node| node_content(n),
        ));
    }
}

/// Normalization is deterministic: two normalized graphs whose nodes have
/// the same contents with the same multiplicities, with no repeated
/// identifier in either, render identically down to the order of nodes
/// and edges.
pub proof fn lemma_normalize_deterministic(a: Resolve, b: Resolve)
    requires
        normalized(a),
        normalized(b),
        distinct_node_ids(a.nodes@),
        distinct_node_ids(b.nodes@),
        a.nodes@.map_values(|n: Node| node_content(n)).to_multiset() == b.nodes@.map_values(
            |n: Node| node_content(n),
        ).to_multiset(),
    ensures
        a.nodes@.map_values(|n: Node| node_rendering(n)) == b.nodes@.map_values(
            |n: Node| node_rendering(n),
        ),
{
    let f = |n: Node| node_content(n);
    let ca = a.nodes@.map_values(f);
    let cb = b.nodes@.map_values(f);
    let key = |e: NodeContent| e.id@;
    let kle = |x: Seq<char>, y: Seq<char>| lex_le(x, y);
    lemma_lex_le_total_ordering(kle);
    assert forall|i: int, j: int| 0 <= i < j < ca.len() implies kle(key(ca[i]), key(ca[j]))
        && key(ca[i]) != key(ca[j]) by {
        assert(a.nodes@[i].proj().cmp_spec(&a.nodes@[j].proj()) != Ordering::Greater);
    }
    assert forall|i: int, j: int| 0 <= i < j < cb.len() implies kle(key(cb[i]), key(cb[j]))
        && key(cb[i]) != key(cb[j]) by {
        assert(b.nodes@[i].proj().cmp_spec(&b.nodes@[j].proj()) != Ordering::Greater);
    }
    lemma_sorted_distinct_keys_determine(ca, cb, key, kle);
    assert(a.nodes@.len() == b.nodes@.len());
    let g = |n: Node| node_rendering(n);
    assert forall|i: int| 0 <= i < a.nodes@.len() implies #[trigger] a.nodes@.map_values(g)[i]
        == b.nodes@.map_values(g)[i] by {
        let na = a.nodes@[i];
        let nb = b.nodes@[i];
        assert(ca[i] == cb[i]);
        assert(node_content(na) == node_content(nb));
        let va = na.dependencies@.map_values(|s: String| s@);
        let vb = nb.dependencies@.map_values(|s: String| s@);
        lemma_map_to_multiset(na.dependencies@, nb.dependencies@, |s: String| s@);
        assert forall|p: int, q: int| 0 <= p < q < va.len() implies kle(va[p], va[q]) by {
            assert(na.dependencies@[p].proj().cmp_spec(&na.dependencies@[q].proj())
                != Ordering::Greater);
        }
        assert forall|p: int, q: int| 0 <= p < q < vb.len() implies kle(vb[p], vb[q]) by {
            assert(nb.dependencies@[p].proj().cmp_spec(&nb.dependencies@[q].proj())
                != Ordering::Greater);
        }
        lemma_sorted_multiset_determines(va, vb, kle);
        assert(node_rendering(na) =~= node_rendering(nb));
    }
    assert(a.nodes@.map_values(|n: Node| node_rendering(n)) =~= b.nodes@.map_values(
        |n: Node| node_rendering(n),
    )) by {
        assert(a.nodes@.map_values(g) =~= b.nodes@.map_values(g));
    }
}

} // verus!

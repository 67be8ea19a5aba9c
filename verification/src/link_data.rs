//! The immutable in-memory graph snapshot: forward adjacency plus a derived
//! reverse adjacency, generated together from one ingestion pass.
//!
//! The reverse map is never persisted; it is rederived from the forward map
//! every time a snapshot is loaded. Derivation preserves edge multiplicity:
//! every (u, v) occurrence in the forward map has exactly one matching
//! (v, u) occurrence in the reverse map.

use vstd::prelude::*;

use crate::adjacency::AdjacencyMap;
use crate::adjacency::edge_count;
use crate::adjacency::lemma_occ_contains;
use crate::adjacency::lemma_occ_push;
use crate::adjacency::lemma_pairs_map_props;
use crate::adjacency::occ;
use crate::adjacency::pairs_map;

verus! {

/// One complete graph generation: forward links and the matching reverse
/// links.
pub struct LinkData {
    pub links_forward: AdjacencyMap,
    pub links_reverse: AdjacencyMap,
}

impl LinkData {
    /// Both directions are well-formed and mirror each other edge for edge,
    /// multiplicity included.
    pub open spec fn wf(self) -> bool {
        &&& self.links_forward.wf()
        &&& self.links_reverse.wf()
        &&& forall|u: u32, v: u32|
            #[trigger] edge_count(self.links_forward@, u, v) == #[trigger] edge_count(
                self.links_reverse@,
                v,
                u,
            )
    }

    /// A forward edge always answers to a reverse edge.
    pub proof fn lemma_forward_edge(self, a: u32, b: u32)
        requires
            self.wf(),
            self.links_forward@.contains_key(a),
            self.links_forward@[a].contains(b),
        ensures
            self.links_reverse@.contains_key(b),
            self.links_reverse@[b].contains(a),
    {
        lemma_occ_contains(self.links_forward@[a], b);
        assert(edge_count(self.links_forward@, a, b) > 0);
        assert(edge_count(self.links_reverse@, b, a) > 0);
        lemma_occ_contains(self.links_reverse@[b], a);
    }

    /// A reverse edge always answers to a forward edge.
    pub proof fn lemma_reverse_edge(self, a: u32, b: u32)
        requires
            self.wf(),
            self.links_reverse@.contains_key(a),
            self.links_reverse@[a].contains(b),
        ensures
            self.links_forward@.contains_key(b),
            self.links_forward@[b].contains(a),
    {
        lemma_occ_contains(self.links_reverse@[a], b);
        assert(edge_count(self.links_reverse@, a, b) > 0);
        assert(edge_count(self.links_forward@, b, a) > 0);
        lemma_occ_contains(self.links_forward@[b], a);
    }
}

/// Loads one complete graph generation from an encoded artifact: decodes
/// the forward adjacency and derives the reverse adjacency from it.
pub fn get_link_data(bytes: &Vec<u8>) -> (r: Result<LinkData, crate::codec::DecodeError>)
    ensures
        match r {
            Ok(d) => d.wf() && crate::codec::spec_decode(bytes@) == Some(d.links_forward.pairs()),
            Err(e) => crate::codec::spec_decode(bytes@) is None,
        },
{
    let links_forward = match crate::codec::decode_links(bytes) {
        Ok(m) => m,
        Err(e) => {
            return Err(e);
        },
    };
    let links_reverse = generate_links_reverse(&links_forward);
    Ok(LinkData { links_forward, links_reverse })
}

/// How many (u, v) edges a sequence of key/list pairs records, summed over
/// every pair whose key is `u`.
pub open spec fn pairs_count(ps: Seq<(u32, Seq<u32>)>, u: u32, v: u32) -> nat
    decreases ps.len(),
{
    if ps.len() == 0 {
        0
    } else {
        pairs_count(ps.drop_last(), u, v) + (if ps.last().0 == u {
            occ(ps.last().1, v)
        } else {
            0nat
        })
    }
}

proof fn lemma_pairs_count_absent(ps: Seq<(u32, Seq<u32>)>, u: u32, v: u32)
    requires
        forall|i: int| 0 <= i < ps.len() ==> #[trigger] ps[i].0 != u,
    ensures
        pairs_count(ps, u, v) == 0,
    decreases ps.len(),
{
    if ps.len() > 0 {
        lemma_pairs_count_absent(ps.drop_last(), u, v);
    }
}

/// Over distinct keys, the per-pair edge count agrees with the edge count of
/// the map the pairs stand for.
proof fn lemma_pairs_count_eq(ps: Seq<(u32, Seq<u32>)>, u: u32, v: u32)
    requires
        forall|a: int, b: int| 0 <= a < b < ps.len() ==> #[trigger] ps[a].0 != #[trigger] ps[b].0,
    ensures
        pairs_count(ps, u, v) == edge_count(pairs_map(ps), u, v),
    decreases ps.len(),
{
    lemma_pairs_map_props(ps);
    if ps.len() > 0 {
        let prefix = ps.drop_last();
        lemma_pairs_count_eq(prefix, u, v);
        lemma_pairs_map_props(prefix);
        if ps.last().0 == u {
            assert forall|i: int| 0 <= i < prefix.len() implies #[trigger] prefix[i].0 != u by {
                assert(ps[i].0 != ps[ps.len() - 1].0);
            }
            lemma_pairs_count_absent(prefix, u, v);
        }
    }
}

/// Derives the reverse adjacency of a forward adjacency, preserving edge
/// multiplicity: every (u, v) occurrence forward yields exactly one (v, u)
/// occurrence in the result.
pub fn generate_links_reverse(links: &AdjacencyMap) -> (rev: AdjacencyMap)
    requires
        links.wf(),
    ensures
        rev.wf(),
        forall|u: u32, v: u32|
            #[trigger] edge_count(links@, u, v) == #[trigger] edge_count(rev@, v, u),
{
    let ghost ps = links.pairs();
    let mut rev = AdjacencyMap::new();
    let n = links.len();
    let mut i: usize = 0;
    proof {
        assert(ps.take(0) =~= Seq::<(u32, Seq<u32>)>::empty());
    }
    while i < n
        invariant
            links.wf(),
            ps == links.pairs(),
            n == ps.len(),
            i <= n,
            rev.wf(),
            forall|u: u32, v: u32|
                #[trigger] edge_count(rev@, v, u) == pairs_count(ps.take(i as int), u, v),
        decreases n - i,
    {
        let from = links.key_at(i);
        let targets = links.targets_at(i);
        let m = targets.len();
        let mut j: usize = 0;
        proof {
            assert(ps[i as int].1.take(0) =~= Seq::<u32>::empty());
            lemma_take_partial(ps, i as int, 0);
        }
        while j < m
            invariant
                links.wf(),
                ps == links.pairs(),
                i < n,
                n == ps.len(),
                from == ps[i as int].0,
                targets@ == ps[i as int].1,
                m == targets@.len(),
                j <= m,
                rev.wf(),
                forall|u: u32, v: u32|
                    #[trigger] edge_count(rev@, v, u) == pairs_count(
                        ps.take(i as int).push((ps[i as int].0, ps[i as int].1.take(j as int))),
                        u,
                        v,
                    ),
            decreases m - j,
        {
            let to = targets[j];
            let ghost prev = rev;
            rev.push_edge(to, from);
            proof {
                lemma_reverse_step(prev@, rev@, ps, i as int, j as int, from, to);
            }
            j += 1;
        }
        proof {
            assert(ps[i as int].1.take(m as int) =~= ps[i as int].1);
            assert(ps.take(i as int).push((ps[i as int].0, ps[i as int].1)) =~= ps.take(
                i as int + 1,
            ));
        }
        i += 1;
    }
    proof {
        assert(ps.take(n as int) =~= ps);
        assert forall|u: u32, v: u32| #[trigger] edge_count(links@, u, v) == #[trigger] edge_count(
            rev@,
            v,
            u,
        ) by {
            lemma_pairs_count_eq(ps, u, v);
        }
    }
    rev
}

/// One appended reverse edge raises exactly the (to, from) count.
proof fn lemma_reverse_step(
    prev: Map<u32, Seq<u32>>,
    cur: Map<u32, Seq<u32>>,
    ps: Seq<(u32, Seq<u32>)>,
    i: int,
    j: int,
    from: u32,
    to: u32,
)
    requires
        0 <= i < ps.len(),
        0 <= j < ps[i].1.len(),
        from == ps[i].0,
        to == ps[i].1[j],
        cur == (if prev.contains_key(to) {
            prev.insert(to, prev[to].push(from))
        } else {
            prev.insert(to, seq![from])
        }),
        forall|u: u32, v: u32|
            #[trigger] edge_count(prev, v, u) == pairs_count(
                ps.take(i).push((ps[i].0, ps[i].1.take(j))),
                u,
                v,
            ),
    ensures
        forall|u: u32, v: u32|
            #[trigger] edge_count(cur, v, u) == pairs_count(
                ps.take(i).push((ps[i].0, ps[i].1.take(j + 1))),
                u,
                v,
            ),
{
    let before = ps.take(i).push((ps[i].0, ps[i].1.take(j)));
    let after = ps.take(i).push((ps[i].0, ps[i].1.take(j + 1)));
    assert(after.drop_last() =~= ps.take(i));
    assert(before.drop_last() =~= ps.take(i));
    assert(ps[i].1.take(j + 1) =~= ps[i].1.take(j).push(to));
    assert forall|u: u32, v: u32| #[trigger] edge_count(cur, v, u) == pairs_count(after, u, v) by {
        assert(edge_count(prev, v, u) == pairs_count(before, u, v));
        lemma_occ_push(ps[i].1.take(j), to, v);
        assert(pairs_count(after, u, v) == pairs_count(ps.take(i), u, v) + (if from == u {
            occ(ps[i].1.take(j).push(to), v)
        } else {
            0nat
        }));
        assert(pairs_count(before, u, v) == pairs_count(ps.take(i), u, v) + (if from == u {
            occ(ps[i].1.take(j), v)
        } else {
            0nat
        }));
        if v == to {
            if prev.contains_key(to) {
                lemma_occ_push(prev[to], from, u);
            } else {
                assert(occ(seq![from], u) == occ(Seq::<u32>::empty(), u) + (if from == u {
                    1nat
                } else {
                    0nat
                })) by {
                    assert(seq![from].drop_last() =~= Seq::<u32>::empty());
                }
            }
        } else {
            assert(edge_count(cur, v, u) == edge_count(prev, v, u));
        }
    }
}

/// The invariant shape at the start of a pair: nothing of the pair's list is
/// counted yet.
proof fn lemma_take_partial(ps: Seq<(u32, Seq<u32>)>, i: int, j: int)
    requires
        0 <= i < ps.len(),
        j == 0,
    ensures
        forall|u: u32, v: u32|
            pairs_count(ps.take(i).push((ps[i].0, ps[i].1.take(0))), u, v) == pairs_count(
                ps.take(i),
                u,
                v,
            ),
{
    assert forall|u: u32, v: u32|
        pairs_count(ps.take(i).push((ps[i].0, ps[i].1.take(0))), u, v) == pairs_count(
            ps.take(i),
            u,
            v,
        ) by {
        let s = ps.take(i).push((ps[i].0, ps[i].1.take(0)));
        assert(s.drop_last() =~= ps.take(i));
        assert(ps[i].1.take(0) =~= Seq::<u32>::empty());
        assert(occ(ps[i].1.take(0), v) == 0);
    }
}

} // verus!

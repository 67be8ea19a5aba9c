//! Bidirectional breadth-first search over a graph snapshot.
//!
//! Two level-synchronized expansions run in alternating single-hop rounds:
//! forward from the start page over forward links, and backward from the
//! target page over reverse links. Each direction keeps a discoverer map
//! from a page to the page that first reached it (a root is its own
//! discoverer). The search halts the moment a page newly discovered in one
//! direction is already known to the other; the shared page is the meeting
//! point and the path is reconstructed by walking both discoverer maps back
//! to their roots.

use std::collections::HashMap;

use vstd::prelude::*;

use crate::adjacency::AdjacencyMap;
use crate::link_data::LinkData;

verus! {

broadcast use vstd::std_specs::hash::group_hash_axioms;

/// The graph records an edge from `a` to `b`.
pub open spec fn has_edge(m: Map<u32, Seq<u32>>, a: u32, b: u32) -> bool {
    m.contains_key(a) && m[a].contains(b)
}

/// Every consecutive pair of the sequence is an edge of the graph.
pub open spec fn path_ok(m: Map<u32, Seq<u32>>, p: Seq<u32>) -> bool {
    forall|i: int| 0 <= i < p.len() - 1 ==> has_edge(m, #[trigger] p[i], p[i + 1])
}

/// A directed walk of at most `k` edges leads from `a` to `b`.
pub open spec fn reaches(g: Map<u32, Seq<u32>>, a: u32, b: u32, k: nat) -> bool
    decreases k,
{
    a == b || (k > 0 && exists|m: u32| #[trigger] has_edge(g, a, m) && reaches(
        g,
        m,
        b,
        (k - 1) as nat,
    ))
}

/// Some directed walk leads from `a` to `b`.
pub open spec fn reachable(g: Map<u32, Seq<u32>>, a: u32, b: u32) -> bool {
    exists|k: nat| reaches(g, a, b, k)
}

/// A walk extends by one edge at its end.
proof fn lemma_reaches_extend(g: Map<u32, Seq<u32>>, a: u32, b: u32, c: u32, k: nat)
    requires
        reaches(g, a, b, k),
        has_edge(g, b, c),
    ensures
        reaches(g, a, c, k + 1),
    decreases k,
{
    if a == b {
        assert(has_edge(g, a, c) && reaches(g, c, c, k));
    } else {
        let m = choose|m: u32| #[trigger] has_edge(g, a, m) && reaches(g, m, b, (k - 1) as nat);
        lemma_reaches_extend(g, m, b, c, (k - 1) as nat);
    }
}

/// Against a graph holding the mirror of every edge, every walk runs
/// backward.
proof fn lemma_reaches_flip(g1: Map<u32, Seq<u32>>, g2: Map<u32, Seq<u32>>, a: u32, b: u32, k: nat)
    requires
        reaches(g1, a, b, k),
        forall|u: u32, v: u32| has_edge(g1, u, v) ==> has_edge(g2, v, u),
    ensures
        reaches(g2, b, a, k),
    decreases k,
{
    if a != b {
        let m = choose|m: u32| #[trigger] has_edge(g1, a, m) && reaches(g1, m, b, (k - 1) as nat);
        lemma_reaches_flip(g1, g2, m, b, (k - 1) as nat);
        lemma_reaches_extend(g2, b, m, a, (k - 1) as nat);
    }
}

/// Whatever a walk from inside a successor-closed discoverer map reaches
/// lies inside it too.
proof fn lemma_closed_set_reaches(
    seen: Map<u32, u32>,
    g: Map<u32, Seq<u32>>,
    a: u32,
    b: u32,
    k: nat,
)
    requires
        seen.contains_key(a),
        reaches(g, a, b, k),
        forall|n: u32, m: u32|
            #[trigger] seen.contains_key(n) && #[trigger] has_edge(g, n, m) ==> seen.contains_key(
                m,
            ),
    ensures
        seen.contains_key(b),
    decreases k,
{
    if a != b {
        let m = choose|m: u32| #[trigger] has_edge(g, a, m) && reaches(g, m, b, (k - 1) as nat);
        lemma_closed_set_reaches(seen, g, m, b, (k - 1) as nat);
    }
}

/// A valid path witnesses reachability between its endpoints.
proof fn lemma_path_reaches(g: Map<u32, Seq<u32>>, p: Seq<u32>)
    requires
        p.len() >= 1,
        path_ok(g, p),
    ensures
        reaches(g, p[0], p[p.len() - 1], (p.len() - 1) as nat),
    decreases p.len(),
{
    if p.len() > 1 {
        let tail = p.drop_first();
        assert(path_ok(g, tail)) by {
            assert forall|i: int| 0 <= i < tail.len() - 1 implies has_edge(
                g,
                #[trigger] tail[i],
                tail[i + 1],
            ) by {
                assert(tail[i] == p[i + 1] && tail[i + 1] == p[i + 2]);
                assert(has_edge(g, p[i + 1], p[i + 1 + 1]));
            }
        }
        lemma_path_reaches(g, tail);
        assert(has_edge(g, p[0], tail[0]));
    }
}

/// A walk within a bound is a walk within any larger bound.
proof fn lemma_reaches_mono(g: Map<u32, Seq<u32>>, a: u32, b: u32, k1: nat, k2: nat)
    requires
        reaches(g, a, b, k1),
        k1 <= k2,
    ensures
        reaches(g, a, b, k2),
    decreases k1,
{
    if a != b {
        let m = choose|m: u32| #[trigger] has_edge(g, a, m) && reaches(g, m, b, (k1 - 1) as nat);
        lemma_reaches_mono(g, m, b, (k1 - 1) as nat, (k2 - 1) as nat);
    }
}

/// A walk splits at any intermediate length.
proof fn lemma_reaches_split(g: Map<u32, Seq<u32>>, a: u32, b: u32, k: nat, j: nat)
    requires
        reaches(g, a, b, k),
        j <= k,
    ensures
        exists|m: u32|
            #[trigger] reaches(g, a, m, j) && reaches(g, m, b, (k - j) as nat),
    decreases j,
{
    if j == 0 {
        assert(reaches(g, a, a, 0) && reaches(g, a, b, k));
    } else if a == b {
        assert(reaches(g, a, b, j) && reaches(g, b, b, (k - j) as nat));
    } else {
        let m1 = choose|m: u32| #[trigger] has_edge(g, a, m) && reaches(g, m, b, (k - 1) as nat);
        lemma_reaches_split(g, m1, b, (k - 1) as nat, (j - 1) as nat);
        let m = choose|m: u32|
            #[trigger] reaches(g, m1, m, (j - 1) as nat) && reaches(g, m, b, (k - j) as nat);
        assert(reaches(g, a, m, j)) by {
            assert(has_edge(g, a, m1) && reaches(g, m1, m, (j - 1) as nat));
        }
    }
}

/// Every discoverer recorded in the map is itself recorded in the map.
pub open spec fn disc_closed(m: Map<u32, u32>) -> bool {
    forall|n: u32| #[trigger] m.contains_key(n) ==> m.contains_key(m[n])
}

/// A ranking that witnesses that following discoverers always terminates:
/// every recorded page has a non-negative rank, and a discoverer other than
/// the page itself has a strictly smaller rank.
pub open spec fn rank_ok(m: Map<u32, u32>, rk: Map<u32, int>) -> bool {
    forall|n: u32|
        #[trigger] m.contains_key(n) ==> 0 <= rk[n] && (m[n] != n ==> rk[m[n]] < rk[n])
}

/// A well-formed discoverer map for one search direction: the root is its
/// own discoverer and every other recorded page was reached along an edge of
/// that direction's graph from its discoverer.
pub open spec fn seen_ok(seen: Map<u32, u32>, g: Map<u32, Seq<u32>>, root: u32) -> bool {
    &&& seen.contains_key(root) && seen[root] == root
    &&& forall|n: u32|
        #[trigger] seen.contains_key(n) && n != root ==> seen[n] != n && seen.contains_key(seen[n])
            && has_edge(g, seen[n], n)
}

/// The backpointer walk out of `c`: the sequence of discoverers visited by
/// following the map from `c` until a page that is its own discoverer (or a
/// page without an entry) is reached, excluding `c` itself.
pub open spec fn chain_from(m: Map<u32, u32>, c: u32, t: Seq<u32>) -> bool {
    &&& (t.len() == 0 <==> (!m.contains_key(c) || m[c] == c))
    &&& (t.len() > 0 ==> m.contains_key(c) && t[0] == m[c])
    &&& (forall|q: int| 0 <= q < t.len() ==> m.contains_key(#[trigger] t[q]))
    &&& (forall|q: int| 0 <= q < t.len() - 1 ==> #[trigger] t[q + 1] == m[t[q]] && m[t[q]] != t[q])
    &&& (t.len() > 0 ==> m[t[t.len() - 1]] == t[t.len() - 1])
}

/// Position `k` of `p` splits the path into a walk of `seen` (reversed)
/// and a walk of `rev`, joined at the page `p[k]` where the searches met.
pub open spec fn meet_path(seen: Map<u32, u32>, rev: Map<u32, u32>, p: Seq<u32>, k: int) -> bool {
    &&& 0 <= k < p.len()
    &&& seen.contains_key(p[k])
    &&& rev.contains_key(p[k])
    &&& chain_from(seen, p[k], p.take(k).reverse())
    &&& chain_from(rev, p[k], p.skip(k + 1))
}

/// Some position of `p` is a meeting point of the two discoverer maps.
pub open spec fn met(seen: Map<u32, u32>, rev: Map<u32, u32>, p: Seq<u32>) -> bool {
    exists|k: int| #[trigger] meet_path(seen, rev, p, k)
}

/// A discoverer walk is never longer than its start's rank.
proof fn lemma_chain_len_bound(m: Map<u32, u32>, rk: Map<u32, int>, c: u32, t: Seq<u32>)
    requires
        rank_ok(m, rk),
        m.contains_key(c),
        chain_from(m, c, t),
    ensures
        t.len() <= rk[c],
    decreases t.len(),
{
    if t.len() > 0 {
        assert(m[c] != c && t[0] == m[c]);
        assert(m.contains_key(t[0]));
        assert(rk[t[0]] < rk[c]);
        let t2 = t.drop_first();
        assert(chain_from(m, t[0], t2)) by {
            if t2.len() > 0 {
                let q0: int = 0;
                assert(t[q0 + 1] == m[t[q0]]);
                assert(m[t[q0]] != t[q0]);
                assert(t2[0] == t[1]);
                assert forall|q: int| 0 <= q < t2.len() - 1 implies #[trigger] t2[q + 1]
                    == m[t2[q]] && m[t2[q]] != t2[q] by {
                    assert(t2[q] == t[q + 1] && t2[q + 1] == t[q + 1 + 1]);
                }
                assert(t2[t2.len() - 1] == t[t.len() - 1]);
            } else {
                assert(m[t[t.len() - 1]] == t[t.len() - 1]);
            }
        }
        lemma_chain_len_bound(m, rk, t[0], t2);
    }
}

/// The walk out of `c` as far as `cur`, still in progress.
spec fn chain_partial(m: Map<u32, u32>, c: u32, cur: u32, t: Seq<u32>) -> bool {
    &&& (t.len() == 0 ==> cur == c)
    &&& (t.len() > 0 ==> m.contains_key(c) && m[c] != c && t[0] == m[c] && cur == t[t.len() - 1])
    &&& (forall|q: int| 0 <= q < t.len() ==> m.contains_key(#[trigger] t[q]))
    &&& (forall|q: int| 0 <= q < t.len() - 1 ==> #[trigger] t[q + 1] == m[t[q]] && m[t[q]] != t[q])
}

/// Walks a discoverer map from `current_page_id` and appends each discoverer
/// visited to `path`, stopping when a page discovered by itself (a search
/// root) is reached. `current_page_id` itself is not appended.
pub fn populate_path_with_seen_by_until_circular(
    seen_by: &mut HashMap<u32, u32>,
    path: &mut Vec<u32>,
    current_page_id: u32,
)
    requires
        disc_closed(old(seen_by)@),
        exists|rk: Map<u32, int>| rank_ok(old(seen_by)@, rk),
    ensures
        final(seen_by)@ == old(seen_by)@,
        final(path)@.len() >= old(path)@.len(),
        final(path)@.take(old(path)@.len() as int) == old(path)@,
        chain_from(
            old(seen_by)@,
            current_page_id,
            final(path)@.skip(old(path)@.len() as int),
        ),
{
    let ghost m = seen_by@;
    let ghost rk = choose|rk: Map<u32, int>| rank_ok(m, rk);
    let ghost base = path@;
    let mut current: u32 = current_page_id;
    loop
        invariant_except_break
            seen_by@ == m,
            disc_closed(m),
            rank_ok(m, rk),
            path@.len() >= base.len(),
            path@.take(base.len() as int) == base,
            chain_partial(m, current_page_id, current, path@.skip(base.len() as int)),
        ensures
            seen_by@ == m,
            path@.len() >= base.len(),
            path@.take(base.len() as int) == base,
            chain_from(m, current_page_id, path@.skip(base.len() as int)),
        decreases (if m.contains_key(current) && m[current] != current {
            rk[current]
        } else {
            0
        }),
    {
        proof {
            assert(path@.skip(base.len() as int).len() == path@.len() - base.len());
        }
        match seen_by.get(&current) {
            Some(next_ref) => {
                let next = *next_ref;
                if current == next {
                    proof {
                        lemma_walk_stops(m, current_page_id, current, path@.skip(
                            base.len() as int,
                        ));
                    }
                    break ;
                }
                let ghost tprev = path@.skip(base.len() as int);
                path.push(next);
                proof {
                    let t = path@.skip(base.len() as int);
                    assert(t =~= tprev.push(next));
                    assert(path@.take(base.len() as int) =~= base);
                    assert(chain_partial(m, current_page_id, next, tprev.push(next)));
                }
                current = next;
            },
            None => {
                proof {
                    lemma_walk_stops(m, current_page_id, current, path@.skip(base.len() as int));
                }
                break ;
            },
        }
    }
}

/// A copy of the sequence with the element order reversed.
fn reverse_vec(v: &Vec<u32>) -> (r: Vec<u32>)
    ensures
        r@ == v@.reverse(),
{
    let n = v.len();
    let mut r: Vec<u32> = Vec::new();
    let mut i: usize = 0;
    while i < n
        invariant
            n == v@.len(),
            i <= n,
            r@.len() == i,
            forall|j: int| 0 <= j < i ==> #[trigger] r@[j] == v@[n - 1 - j],
        decreases n - i,
    {
        r.push(v[n - 1 - i]);
        i += 1;
    }
    proof {
        assert(r@ =~= v@.reverse());
    }
    r
}

/// Reconstructs the full path through a freshly met page: the walk of the
/// first discoverer map back to its root, reversed, then the met page, then
/// the walk of the second discoverer map back to its root.
pub fn bfs_generate_path(
    seen_by: &mut HashMap<u32, u32>,
    reverse_seen_by: &mut HashMap<u32, u32>,
    next_page_id: u32,
) -> (path: Vec<u32>)
    requires
        disc_closed(old(seen_by)@),
        disc_closed(old(reverse_seen_by)@),
        exists|rk: Map<u32, int>| rank_ok(old(seen_by)@, rk),
        exists|rk: Map<u32, int>| rank_ok(old(reverse_seen_by)@, rk),
    ensures
        final(seen_by)@ == old(seen_by)@,
        final(reverse_seen_by)@ == old(reverse_seen_by)@,
        exists|k: int|
            {
                &&& 0 <= k < path@.len()
                &&& path@[k] == next_page_id
                &&& #[trigger] chain_from(old(seen_by)@, next_page_id, path@.take(k).reverse())
                &&& chain_from(old(reverse_seen_by)@, next_page_id, path@.skip(k + 1))
            },
{
    let mut path: Vec<u32> = Vec::new();
    populate_path_with_seen_by_until_circular(seen_by, &mut path, next_page_id);
    let ghost up = path@;
    proof {
        assert(up.skip(0) =~= up);
    }
    let mut path = reverse_vec(&path);
    path.push(next_page_id);
    let ghost k = up.len() as int;
    proof {
        assert(path@.take(k) =~= up.reverse());
        assert(up.reverse().reverse() =~= up);
    }
    let ghost mid = path@;
    populate_path_with_seen_by_until_circular(reverse_seen_by, &mut path, next_page_id);
    proof {
        assert(mid == up.reverse().push(next_page_id));
        assert(mid.len() == k + 1);
        assert(path@.take(k + 1) == mid);
        assert(path@[k] == mid[k]);
        assert(path@.take(k) =~= mid.take(k));
        assert(mid.take(k) =~= up.reverse());
        assert(path@.take(k).reverse() == up.reverse().reverse());
        assert(up.reverse().reverse() =~= up);
        assert(chain_from(old(seen_by)@, next_page_id, path@.take(k).reverse()));
        assert(chain_from(old(reverse_seen_by)@, next_page_id, path@.skip(k + 1)));
    }
    path
}

/// Expands one direction's frontier by a single hop.
///
/// Every page reached from a frontier page along an edge of `links` and not
/// yet in `seen_by` is recorded there with its discoverer and appended to
/// `new_link_queue` — unless the opposite direction already knows it, in
/// which case the two searches have met and the reconstructed path is
/// returned at once.
pub fn bfs_directional_search_step(
    links: &AdjacencyMap,
    link_queue: &mut Vec<u32>,
    seen_by: &mut HashMap<u32, u32>,
    reverse_seen_by: &mut HashMap<u32, u32>,
    new_link_queue: &mut Vec<u32>,
) -> (r: Option<Vec<u32>>)
    requires
        links.wf(),
        disc_closed(old(seen_by)@),
        disc_closed(old(reverse_seen_by)@),
        exists|rk: Map<u32, int>| rank_ok(old(seen_by)@, rk),
        exists|rk: Map<u32, int>| rank_ok(old(reverse_seen_by)@, rk),
        forall|j: int|
            0 <= j < old(link_queue)@.len() ==> old(seen_by)@.contains_key(
                #[trigger] old(link_queue)@[j],
            ),
    ensures
        final(link_queue)@ == old(link_queue)@,
        final(reverse_seen_by)@ == old(reverse_seen_by)@,
        forall|x: u32|
            old(seen_by)@.contains_key(x) ==> final(seen_by)@.contains_key(x) && final(seen_by)@[x]
                == old(seen_by)@[x],
        forall|x: u32|
            #[trigger] final(seen_by)@.contains_key(x) && !old(seen_by)@.contains_key(x)
                ==> old(seen_by)@.contains_key(final(seen_by)@[x]) && has_edge(
                links@,
                final(seen_by)@[x],
                x,
            ),
        disc_closed(final(seen_by)@),
        exists|rk: Map<u32, int>| rank_ok(final(seen_by)@, rk),
        final(new_link_queue)@.take(old(new_link_queue)@.len() as int) == old(new_link_queue)@,
        forall|j: int|
            old(new_link_queue)@.len() <= j < final(new_link_queue)@.len() ==> final(seen_by)@.contains_key(#[trigger] final(new_link_queue)@[j]),
        final(new_link_queue)@.len() >= old(new_link_queue)@.len(),
        final(new_link_queue)@.len() > old(new_link_queue)@.len() ==> final(seen_by)@.dom().len() > old(seen_by)@.dom().len(),
        r is None ==> final(seen_by)@.dom().len() <= usize::MAX,
        r is None ==> forall|j: int, m: u32|
            0 <= j < old(link_queue)@.len() && #[trigger] has_edge(
                links@,
                old(link_queue)@[j],
                m,
            ) ==> final(seen_by)@.contains_key(m),
        r is None ==> forall|n: u32|
            #[trigger] final(seen_by)@.contains_key(n) && !old(seen_by)@.contains_key(n) ==> final(new_link_queue)@.contains(n),
        r is None ==> forall|n: u32|
            #[trigger] final(seen_by)@.contains_key(n) && !old(seen_by)@.contains_key(n) ==> !old(reverse_seen_by)@.contains_key(n),
        r matches Some(p) ==> met(final(seen_by)@, old(reverse_seen_by)@, p@),
{
    let ghost seen0 = seen_by@;
    let ghost rev0 = reverse_seen_by@;
    let ghost q0 = link_queue@;
    let ghost nq0 = new_link_queue@;
    let ghost mut rk = choose|rk: Map<u32, int>| rank_ok(seen0, rk);
    let n = link_queue.len();
    let mut qi: usize = 0;
    while qi < n
        invariant
            links.wf(),
            n == q0.len(),
            qi <= n,
            link_queue@ == q0,
            seen0 == old(seen_by)@,
            rev0 == old(reverse_seen_by)@,
            q0 == old(link_queue)@,
            nq0 == old(new_link_queue)@,
            reverse_seen_by@ == rev0,
            disc_closed(rev0),
            exists|rk2: Map<u32, int>| rank_ok(rev0, rk2),
            forall|j: int| 0 <= j < q0.len() ==> seen0.contains_key(#[trigger] q0[j]),
            forall|x: u32|
                #[trigger] seen0.contains_key(x) ==> seen_by@.contains_key(x) && seen_by@[x]
                    == seen0[x],
            forall|x: u32|
                #[trigger] seen_by@.contains_key(x) && !seen0.contains_key(x)
                    ==> seen0.contains_key(seen_by@[x]) && has_edge(links@, seen_by@[x], x),
            disc_closed(seen_by@),
            rank_ok(seen_by@, rk),
            new_link_queue@.take(nq0.len() as int) == nq0,
            new_link_queue@.len() >= nq0.len(),
            forall|j: int|
                nq0.len() <= j < new_link_queue@.len() ==> seen_by@.contains_key(
                    #[trigger] new_link_queue@[j],
                ),
            seen0.dom().len() + new_link_queue@.len() - nq0.len() <= seen_by@.dom().len(),
            forall|j: int, m: u32|
                0 <= j < qi && #[trigger] has_edge(links@, q0[j], m) ==> seen_by@.contains_key(m),
            forall|x: u32|
                #[trigger] seen_by@.contains_key(x) && !seen0.contains_key(x)
                    ==> new_link_queue@.contains(x),
            forall|x: u32|
                #[trigger] seen_by@.contains_key(x) && !seen0.contains_key(x)
                    ==> !rev0.contains_key(x),
        decreases n - qi,
    {
        let current = link_queue[qi];
        match links.get(current) {
            Some(next_links) => {
                let m_len = next_links.len();
                let mut ti: usize = 0;
                while ti < m_len
                    invariant
                        links.wf(),
                        links@.contains_key(current),
                        next_links@ == links@[current],
                        m_len == next_links@.len(),
                        ti <= m_len,
                        seen0.contains_key(current),
                        seen0 == old(seen_by)@,
                        rev0 == old(reverse_seen_by)@,
                        q0 == old(link_queue)@,
                        nq0 == old(new_link_queue)@,
                        link_queue@ == q0,
                        reverse_seen_by@ == rev0,
                        disc_closed(rev0),
                        exists|rk2: Map<u32, int>| rank_ok(rev0, rk2),
                        forall|x: u32|
                            #[trigger] seen0.contains_key(x) ==> seen_by@.contains_key(x)
                                && seen_by@[x] == seen0[x],
                        forall|x: u32|
                            #[trigger] seen_by@.contains_key(x) && !seen0.contains_key(x)
                                ==> seen0.contains_key(seen_by@[x]) && has_edge(
                                links@,
                                seen_by@[x],
                                x,
                            ),
                        disc_closed(seen_by@),
                        rank_ok(seen_by@, rk),
                        new_link_queue@.take(nq0.len() as int) == nq0,
                        new_link_queue@.len() >= nq0.len(),
                        forall|j: int|
                            nq0.len() <= j < new_link_queue@.len() ==> seen_by@.contains_key(
                                #[trigger] new_link_queue@[j],
                            ),
                        seen0.dom().len() + new_link_queue@.len() - nq0.len()
                            <= seen_by@.dom().len(),
                        forall|j: int, m: u32|
                            0 <= j < qi && #[trigger] has_edge(links@, q0[j], m)
                                ==> seen_by@.contains_key(m),
                        forall|t: int|
                            0 <= t < ti ==> seen_by@.contains_key(#[trigger] next_links@[t]),
                        forall|x: u32|
                            #[trigger] seen_by@.contains_key(x) && !seen0.contains_key(x)
                                ==> new_link_queue@.contains(x),
                        forall|x: u32|
                            #[trigger] seen_by@.contains_key(x) && !seen0.contains_key(x)
                                ==> !rev0.contains_key(x),
                    decreases m_len - ti,
                {
                    let next = next_links[ti];
                    if !seen_by.contains_key(&next) {
                        let ghost pre = seen_by@;
                        seen_by.insert(next, current);
                        proof {
                            assert(seen0.contains_key(current));
                            assert(pre.contains_key(current));
                            assert(next_links@.contains(next));
                            assert(has_edge(links@, current, next));
                            let rkp = rk;
                            rk = rkp.insert(next, rkp[current] + 1);
                            lemma_rank_insert(pre, rkp, next, current);
                            assert(seen_by@.dom() =~= pre.dom().insert(next));
                        }
                        if reverse_seen_by.contains_key(&next) {
                            let ghost seen_at = seen_by@;
                            let ghost rev_at = reverse_seen_by@;
                            let path = bfs_generate_path(seen_by, reverse_seen_by, next);
                            proof {
                                let k = choose|k: int|
                                    {
                                        &&& 0 <= k < path@.len()
                                        &&& path@[k] == next
                                        &&& #[trigger] chain_from(
                                            seen_at,
                                            next,
                                            path@.take(k).reverse(),
                                        )
                                        &&& chain_from(rev_at, next, path@.skip(k + 1))
                                    };
                                assert(seen_at.contains_key(next));
                                assert(rev_at.contains_key(next));
                                assert(chain_from(seen_at, path@[k], path@.take(k).reverse()));
                                assert(chain_from(rev_at, path@[k], path@.skip(k + 1)));
                                assert(meet_path(seen_at, rev_at, path@, k));
                                assert(meet_path(seen_by@, rev0, path@, k));
                                assert(met(seen_by@, rev0, path@));
                            }
                            return Some(path);
                        }
                        let ghost pre_q = new_link_queue@;
                        new_link_queue.push(next);
                        proof {
                            assert(new_link_queue@.take(nq0.len() as int) =~= nq0);
                            assert forall|x: u32|
                                #[trigger] seen_by@.contains_key(x) && !seen0.contains_key(
                                    x,
                                ) implies new_link_queue@.contains(x) by {
                                if x == next {
                                    assert(new_link_queue@[new_link_queue@.len() - 1] == next);
                                } else {
                                    assert(pre_q.contains(x));
                                    let idx = choose|idx: int|
                                        0 <= idx < pre_q.len() && pre_q[idx] == x;
                                    assert(new_link_queue@[idx] == x);
                                }
                            }
                        }
                    }
                    ti += 1;
                }
            },
            None => {},
        }
        qi += 1;
    }
    let sz = seen_by.len();
    proof {
        assert(seen_by@.dom().len() == sz as nat);
    }
    None
}

/// Finds a shortest directed path of links from `start` to `target` over a
/// snapshot, by expanding a forward frontier from `start` and a reverse
/// frontier from `target` in alternating single-hop rounds until they meet.
///
/// A returned path starts at `start`, ends at `target`, and follows forward
/// links of the snapshot at every hop. When `start == target` the path is
/// the single page itself. An exhausted frontier ends the search with no
/// path.
#[verifier::rlimit(60)]
pub fn bfs_bidirectional(link_data: &LinkData, start: u32, target: u32) -> (r: Option<Vec<u32>>)
    requires
        link_data.wf(),
    ensures
        start == target ==> (r matches Some(p) && p@ == seq![start]),
        r matches Some(p) ==> {
            &&& p@.len() >= 1
            &&& p@[0] == start
            &&& p@[p@.len() - 1] == target
            &&& path_ok(link_data.links_forward@, p@)
        },
        (r is Some) <==> reachable(link_data.links_forward@, start, target),
        r matches Some(p) ==> forall|k: nat|
            k < p@.len() - 1 ==> !reaches(link_data.links_forward@, start, target, k),
{
    let ghost fwd_g = link_data.links_forward@;
    let ghost rev_g = link_data.links_reverse@;
    if start == target {
        let mut p: Vec<u32> = Vec::new();
        p.push(start);
        proof {
            assert(p@ =~= seq![start]);
            assert(reaches(fwd_g, start, target, 0));
        }
        return Some(p);
    }
    let mut forward_link_queue: Vec<u32> = Vec::new();
    let mut reverse_link_queue: Vec<u32> = Vec::new();
    let mut forward_seen_by: HashMap<u32, u32> = HashMap::new();
    let mut reverse_seen_by: HashMap<u32, u32> = HashMap::new();

    forward_link_queue.push(start);
    reverse_link_queue.push(target);
    forward_seen_by.insert(start, start);
    reverse_seen_by.insert(target, target);
    let ghost mut lf: nat = 0;
    let ghost mut lr: nat = 0;
    let ghost mut dfk: Map<u32, int> = Map::empty().insert(start, 0);
    let ghost mut drk: Map<u32, int> = Map::empty().insert(target, 0);
    proof {
        assert(rank_ok(forward_seen_by@, dfk));
        assert(rank_ok(reverse_seen_by@, drk));
        assert(forward_seen_by@.dom() =~= Set::<u32>::empty().insert(start));
        assert(reverse_seen_by@.dom() =~= Set::<u32>::empty().insert(target));
        assert(forward_link_queue@[0] == start);
        assert(reverse_link_queue@[0] == target);
    }
    loop
        invariant
            start != target,
            link_data.wf(),
            fwd_g == link_data.links_forward@,
            rev_g == link_data.links_reverse@,
            seen_ok(forward_seen_by@, fwd_g, start),
            seen_ok(reverse_seen_by@, rev_g, target),
            disc_closed(forward_seen_by@),
            disc_closed(reverse_seen_by@),
            forall|j: int|
                0 <= j < forward_link_queue@.len() ==> forward_seen_by@.contains_key(
                    #[trigger] forward_link_queue@[j],
                ),
            forall|j: int|
                0 <= j < reverse_link_queue@.len() ==> reverse_seen_by@.contains_key(
                    #[trigger] reverse_link_queue@[j],
                ),
            forward_seen_by@.dom().len() <= usize::MAX,
            reverse_seen_by@.dom().len() <= usize::MAX,
            forall|x: u32|
                #[trigger] forward_seen_by@.contains_key(x) ==> forward_link_queue@.contains(x)
                    || (forall|m: u32|
                    #[trigger] has_edge(fwd_g, x, m) ==> forward_seen_by@.contains_key(m)),
            forall|x: u32|
                #[trigger] reverse_seen_by@.contains_key(x) ==> reverse_link_queue@.contains(x)
                    || (forall|m: u32|
                    #[trigger] has_edge(rev_g, x, m) ==> reverse_seen_by@.contains_key(m)),
            forall|x: u32|
                #[trigger] forward_seen_by@.contains_key(x) ==> !reverse_seen_by@.contains_key(x),
            rank_ok(forward_seen_by@, dfk),
            rank_ok(reverse_seen_by@, drk),
            forall|n: u32| #[trigger] forward_seen_by@.contains_key(n) ==> dfk[n] <= lf,
            forall|n: u32| #[trigger] reverse_seen_by@.contains_key(n) ==> drk[n] <= lr,
            forall|n: u32|
                reaches(fwd_g, start, n, lf) ==> #[trigger] forward_seen_by@.contains_key(n),
            forall|n: u32|
                reaches(rev_g, target, n, lr) ==> #[trigger] reverse_seen_by@.contains_key(n),
        ensures
            seen_ok(forward_seen_by@, fwd_g, start),
            seen_ok(reverse_seen_by@, rev_g, target),
            forward_link_queue@.len() == 0 || reverse_link_queue@.len() == 0,
            forall|x: u32|
                #[trigger] forward_seen_by@.contains_key(x) ==> forward_link_queue@.contains(x)
                    || (forall|m: u32|
                    #[trigger] has_edge(fwd_g, x, m) ==> forward_seen_by@.contains_key(m)),
            forall|x: u32|
                #[trigger] reverse_seen_by@.contains_key(x) ==> reverse_link_queue@.contains(x)
                    || (forall|m: u32|
                    #[trigger] has_edge(rev_g, x, m) ==> reverse_seen_by@.contains_key(m)),
            forall|x: u32|
                #[trigger] forward_seen_by@.contains_key(x) ==> !reverse_seen_by@.contains_key(x),
        decreases 2 * (usize::MAX as int) + 2 - forward_seen_by@.dom().len()
            - reverse_seen_by@.dom().len(),
    {
        let mut new_forward_link_queue: Vec<u32> = Vec::new();
        let ghost fs0 = forward_seen_by@;
        let ghost rs0 = reverse_seen_by@;
        let ghost fq0 = forward_link_queue@;
        let step_forward = bfs_directional_search_step(
            &link_data.links_forward,
            &mut forward_link_queue,
            &mut forward_seen_by,
            &mut reverse_seen_by,
            &mut new_forward_link_queue,
        );
        proof {
            lemma_seen_ok_extend(fs0, forward_seen_by@, fwd_g, start);
        }
        match step_forward {
            Some(path) => {
                proof {
                    lemma_forward_meet(*link_data, forward_seen_by@, rs0, path@, start, target);
                    lemma_path_reaches(fwd_g, path@);
                    let dfk2 = lemma_depth_extend(fs0, forward_seen_by@, dfk, lf as int);
                    let kk = choose|k: int| #[trigger] meet_path(forward_seen_by@, rs0, path@, k);
                    let mt = path@[kk];
                    let ta = path@.take(kk).reverse();
                    let tb = path@.skip(kk + 1);
                    lemma_chain_len_bound(forward_seen_by@, dfk2, mt, ta);
                    lemma_chain_len_bound(rs0, drk, mt, tb);
                    assert(path@.len() - 1 == ta.len() + tb.len());
                    assert(path@.len() - 1 <= lf + 1 + lr);
                    assert forall|k2: nat| k2 < path@.len() - 1 implies !reaches(
                        fwd_g,
                        start,
                        target,
                        k2,
                    ) by {
                        if reaches(fwd_g, start, target, k2) {
                            lemma_no_short_path(
                                *link_data,
                                fs0,
                                rs0,
                                start,
                                target,
                                lf,
                                lr,
                                k2,
                            );
                        }
                    }
                }
                return Some(path);
            },
            None => {},
        }
        forward_link_queue = new_forward_link_queue;
        proof {
            assert forall|x: u32| #[trigger] forward_seen_by@.contains_key(x) implies
            forward_link_queue@.contains(x) || (forall|m: u32|
                #[trigger] has_edge(fwd_g, x, m) ==> forward_seen_by@.contains_key(m)) by {
                if fs0.contains_key(x) {
                    if fq0.contains(x) {
                        let j = choose|j: int| 0 <= j < fq0.len() && fq0[j] == x;
                        assert forall|m: u32| #[trigger] has_edge(fwd_g, x, m) implies
                        forward_seen_by@.contains_key(m) by {
                            assert(has_edge(fwd_g, fq0[j], m));
                        }
                    }
                }
            }
            assert forall|x: u32| #[trigger] forward_seen_by@.contains_key(x) implies
            !reverse_seen_by@.contains_key(x) by {
                if fs0.contains_key(x) {
                    assert(!rs0.contains_key(x));
                }
            }
            dfk = lemma_depth_extend(fs0, forward_seen_by@, dfk, lf as int);
            assert forall|n: u32| reaches(fwd_g, start, n, lf + 1) implies
            #[trigger] forward_seen_by@.contains_key(n) by {
                lemma_reaches_split(fwd_g, start, n, lf + 1, lf);
                let m = choose|m: u32|
                    #[trigger] reaches(fwd_g, start, m, lf) && reaches(
                        fwd_g,
                        m,
                        n,
                        (lf + 1 - lf) as nat,
                    );
                assert(fs0.contains_key(m));
                if m != n {
                    let mm = choose|mm: u32|
                        #[trigger] has_edge(fwd_g, m, mm) && reaches(fwd_g, mm, n, 0nat);
                    assert(mm == n);
                    if fq0.contains(m) {
                        let j = choose|j: int| 0 <= j < fq0.len() && fq0[j] == m;
                        assert(has_edge(fwd_g, fq0[j], n));
                    }
                }
            }
            lf = lf + 1;
        }
        let mut new_reverse_link_queue: Vec<u32> = Vec::new();
        let ghost rs1 = reverse_seen_by@;
        let ghost fs1 = forward_seen_by@;
        let ghost rq1 = reverse_link_queue@;
        let step_reverse = bfs_directional_search_step(
            &link_data.links_reverse,
            &mut reverse_link_queue,
            &mut reverse_seen_by,
            &mut forward_seen_by,
            &mut new_reverse_link_queue,
        );
        proof {
            lemma_seen_ok_extend(rs1, reverse_seen_by@, rev_g, target);
        }
        match step_reverse {
            Some(path) => {
                let rpath = reverse_vec(&path);
                proof {
                    lemma_reverse_meet(*link_data, reverse_seen_by@, fs1, path@, start, target);
                    lemma_path_reaches(fwd_g, rpath@);
                    let drk2 = lemma_depth_extend(rs1, reverse_seen_by@, drk, lr as int);
                    let kk = choose|k: int|
                        #[trigger] meet_path(reverse_seen_by@, fs1, path@, k);
                    let mt = path@[kk];
                    let ta = path@.take(kk).reverse();
                    let tb = path@.skip(kk + 1);
                    lemma_chain_len_bound(reverse_seen_by@, drk2, mt, ta);
                    lemma_chain_len_bound(fs1, dfk, mt, tb);
                    assert(path@.len() - 1 == ta.len() + tb.len());
                    assert(path@.len() - 1 <= lr + 1 + lf);
                    assert(rpath@.len() == path@.len());
                    assert forall|k2: nat| k2 < rpath@.len() - 1 implies !reaches(
                        fwd_g,
                        start,
                        target,
                        k2,
                    ) by {
                        if reaches(fwd_g, start, target, k2) {
                            lemma_no_short_path(
                                *link_data,
                                fs1,
                                rs1,
                                start,
                                target,
                                lf,
                                lr,
                                k2,
                            );
                        }
                    }
                }
                return Some(rpath);
            },
            None => {},
        }
        reverse_link_queue = new_reverse_link_queue;
        proof {
            assert forall|x: u32| #[trigger] reverse_seen_by@.contains_key(x) implies
            reverse_link_queue@.contains(x) || (forall|m: u32|
                #[trigger] has_edge(rev_g, x, m) ==> reverse_seen_by@.contains_key(m)) by {
                if rs1.contains_key(x) {
                    if rq1.contains(x) {
                        let j = choose|j: int| 0 <= j < rq1.len() && rq1[j] == x;
                        assert forall|m: u32| #[trigger] has_edge(rev_g, x, m) implies
                        reverse_seen_by@.contains_key(m) by {
                            assert(has_edge(rev_g, rq1[j], m));
                        }
                    }
                }
            }
            assert forall|x: u32| #[trigger] forward_seen_by@.contains_key(x) implies
            !reverse_seen_by@.contains_key(x) by {
                if reverse_seen_by@.contains_key(x) && !rs1.contains_key(x) {
                    assert(!fs1.contains_key(x));
                }
            }
            drk = lemma_depth_extend(rs1, reverse_seen_by@, drk, lr as int);
            assert forall|n: u32| reaches(rev_g, target, n, lr + 1) implies
            #[trigger] reverse_seen_by@.contains_key(n) by {
                lemma_reaches_split(rev_g, target, n, lr + 1, lr);
                let m = choose|m: u32|
                    #[trigger] reaches(rev_g, target, m, lr) && reaches(
                        rev_g,
                        m,
                        n,
                        (lr + 1 - lr) as nat,
                    );
                assert(rs1.contains_key(m));
                if m != n {
                    let mm = choose|mm: u32|
                        #[trigger] has_edge(rev_g, m, mm) && reaches(rev_g, mm, n, 0nat);
                    assert(mm == n);
                    if rq1.contains(m) {
                        let j = choose|j: int| 0 <= j < rq1.len() && rq1[j] == m;
                        assert(has_edge(rev_g, rq1[j], n));
                    }
                }
            }
            lr = lr + 1;
        }
        let empty_forward = forward_link_queue.is_empty();
        let empty_reverse = reverse_link_queue.is_empty();
        if empty_forward || empty_reverse {
            break ;
        }
        proof {
            assert(forward_seen_by@.dom().len() > fs0.dom().len());
            assert(reverse_seen_by@.dom().len() > rs1.dom().len());
        }
    }
    proof {
        assert forall|k: nat| !reaches(fwd_g, start, target, k) by {
            if reaches(fwd_g, start, target, k) {
                if forward_link_queue@.len() == 0 {
                    assert forall|n: u32, m: u32|
                        #[trigger] forward_seen_by@.contains_key(n) && #[trigger] has_edge(
                            fwd_g,
                            n,
                            m,
                        ) implies forward_seen_by@.contains_key(m) by {
                        assert(!forward_link_queue@.contains(n));
                    }
                    lemma_closed_set_reaches(forward_seen_by@, fwd_g, start, target, k);
                    assert(reverse_seen_by@.contains_key(target));
                } else {
                    assert forall|u: u32, v: u32| #[trigger] has_edge(fwd_g, u, v) implies
                    has_edge(rev_g, v, u) by {
                        link_data.lemma_forward_edge(u, v);
                    }
                    lemma_reaches_flip(fwd_g, rev_g, start, target, k);
                    assert forall|n: u32, m: u32|
                        #[trigger] reverse_seen_by@.contains_key(n) && #[trigger] has_edge(
                            rev_g,
                            n,
                            m,
                        ) implies reverse_seen_by@.contains_key(m) by {
                        assert(!reverse_link_queue@.contains(n));
                    }
                    lemma_closed_set_reaches(reverse_seen_by@, rev_g, target, start, k);
                    assert(forward_seen_by@.contains_key(start));
                }
            }
        }
    }
    None
}

/// A path met while expanding the forward frontier runs from `start` to
/// `target` along forward links.
proof fn lemma_forward_meet(
    link_data: LinkData,
    fseen: Map<u32, u32>,
    rseen: Map<u32, u32>,
    p: Seq<u32>,
    start: u32,
    target: u32,
)
    requires
        link_data.wf(),
        seen_ok(fseen, link_data.links_forward@, start),
        seen_ok(rseen, link_data.links_reverse@, target),
        met(fseen, rseen, p),
    ensures
        p.len() >= 1,
        p[0] == start,
        p[p.len() - 1] == target,
        path_ok(link_data.links_forward@, p),
{
    let fwd_g = link_data.links_forward@;
    let rev_g = link_data.links_reverse@;
    let k = choose|k: int| #[trigger] meet_path(fseen, rseen, p, k);
    lemma_meet_path_props(fseen, rseen, fwd_g, rev_g, start, target, p, k);
    assert forall|i: int| 0 <= i < p.len() - 1 implies has_edge(
        fwd_g,
        #[trigger] p[i],
        p[i + 1],
    ) by {
        if i >= k {
            link_data.lemma_reverse_edge(p[i + 1], p[i]);
        }
    }
}

/// A path met while expanding the reverse frontier runs from `target` to
/// `start`; reversed, it runs from `start` to `target` along forward links.
proof fn lemma_reverse_meet(
    link_data: LinkData,
    rseen: Map<u32, u32>,
    fseen: Map<u32, u32>,
    p: Seq<u32>,
    start: u32,
    target: u32,
)
    requires
        link_data.wf(),
        seen_ok(rseen, link_data.links_reverse@, target),
        seen_ok(fseen, link_data.links_forward@, start),
        met(rseen, fseen, p),
    ensures
        p.len() >= 1,
        p.reverse().len() >= 1,
        p.reverse()[0] == start,
        p.reverse()[p.len() - 1] == target,
        path_ok(link_data.links_forward@, p.reverse()),
{
    let fwd_g = link_data.links_forward@;
    let rev_g = link_data.links_reverse@;
    let k = choose|k: int| #[trigger] meet_path(rseen, fseen, p, k);
    lemma_meet_path_props(rseen, fseen, rev_g, fwd_g, target, start, p, k);
    let rp = p.reverse();
    let n = p.len() as int;
    assert forall|i: int| 0 <= i < n - 1 implies has_edge(
        fwd_g,
        #[trigger] rp[i],
        rp[i + 1],
    ) by {
        let j = n - 2 - i;
        assert(rp[i] == p[j + 1]);
        assert(rp[i + 1] == p[j]);
        if j < k {
            link_data.lemma_reverse_edge(p[j], p[j + 1]);
        }
    }
}

/// With every page within `lf` forward hops of the start known to the
/// forward search, every page within `lr` reverse hops of the target known
/// to the reverse search, and the two searches sharing no page, no walk of
/// at most `lf + lr` edges can join start to target.
proof fn lemma_no_short_path(
    link_data: LinkData,
    fs: Map<u32, u32>,
    rs: Map<u32, u32>,
    start: u32,
    target: u32,
    lf: nat,
    lr: nat,
    k: nat,
)
    requires
        link_data.wf(),
        forall|n: u32|
            reaches(link_data.links_forward@, start, n, lf) ==> #[trigger] fs.contains_key(n),
        forall|n: u32|
            reaches(link_data.links_reverse@, target, n, lr) ==> #[trigger] rs.contains_key(n),
        forall|x: u32| #[trigger] fs.contains_key(x) ==> !rs.contains_key(x),
        k <= lf + lr,
    ensures
        !reaches(link_data.links_forward@, start, target, k),
{
    let fwd_g = link_data.links_forward@;
    let rev_g = link_data.links_reverse@;
    if reaches(fwd_g, start, target, k) {
        let j: nat = if k <= lf {
            k
        } else {
            lf
        };
        lemma_reaches_split(fwd_g, start, target, k, j);
        let m = choose|m: u32|
            #[trigger] reaches(fwd_g, start, m, j) && reaches(fwd_g, m, target, (k - j) as nat);
        lemma_reaches_mono(fwd_g, start, m, j, lf);
        assert(fs.contains_key(m));
        assert forall|u: u32, v: u32| #[trigger] has_edge(fwd_g, u, v) implies has_edge(
            rev_g,
            v,
            u,
        ) by {
            link_data.lemma_forward_edge(u, v);
        }
        lemma_reaches_flip(fwd_g, rev_g, m, target, (k - j) as nat);
        lemma_reaches_mono(rev_g, target, m, (k - j) as nat, lr);
        assert(rs.contains_key(m));
    }
}

/// Extends a depth ranking over one hop of growth: pages already known
/// keep their depth, and each fresh page sits one deeper than its
/// discoverer, so the bound rises by exactly one.
proof fn lemma_depth_extend(
    pre: Map<u32, u32>,
    post: Map<u32, u32>,
    rk: Map<u32, int>,
    bound: int,
) -> (rk2: Map<u32, int>)
    requires
        rank_ok(pre, rk),
        disc_closed(pre),
        forall|n: u32| #[trigger] pre.contains_key(n) ==> rk[n] <= bound,
        forall|x: u32| #[trigger] pre.contains_key(x) ==> post.contains_key(x) && post[x] == pre[x],
        forall|x: u32|
            #[trigger] post.contains_key(x) && !pre.contains_key(x) ==> pre.contains_key(post[x]),
    ensures
        rank_ok(post, rk2),
        forall|n: u32| #[trigger] post.contains_key(n) ==> rk2[n] <= bound + 1,
        forall|n: u32| #[trigger] pre.contains_key(n) ==> rk2[n] == rk[n],
{
    let rk2 = Map::<u32, int>::new(
        |n: u32| post.contains_key(n),
        |n: u32|
            if pre.contains_key(n) {
                rk[n]
            } else {
                rk[post[n]] + 1
            },
    );
    assert forall|n: u32| #[trigger] post.contains_key(n) implies 0 <= rk2[n] && (post[n] != n
        ==> rk2[post[n]] < rk2[n]) by {
        if pre.contains_key(n) {
            assert(post[n] == pre[n]);
            assert(pre.contains_key(pre[n]));
            assert(rk2[post[n]] == rk[pre[n]]);
        } else {
            let d = post[n];
            assert(pre.contains_key(d));
            assert(rk2[d] == rk[d]);
            assert(0 <= rk[d]);
        }
    }
    assert forall|n: u32| #[trigger] post.contains_key(n) implies rk2[n] <= bound + 1 by {
        if !pre.contains_key(n) {
            assert(pre.contains_key(post[n]));
        }
    }
    rk2
}

/// Growing a discoverer map one hop outward keeps it well-formed.
proof fn lemma_seen_ok_extend(pre: Map<u32, u32>, post: Map<u32, u32>, g: Map<u32, Seq<u32>>, root: u32)
    requires
        seen_ok(pre, g, root),
        forall|x: u32| #[trigger] pre.contains_key(x) ==> post.contains_key(x) && post[x] == pre[x],
        forall|x: u32|
            #[trigger] post.contains_key(x) && !pre.contains_key(x) ==> pre.contains_key(post[x])
                && has_edge(g, post[x], x),
    ensures
        seen_ok(post, g, root),
        disc_closed(post),
{
    assert forall|n: u32| #[trigger] post.contains_key(n) && n != root implies post[n] != n
        && post.contains_key(post[n]) && has_edge(g, post[n], n) by {
        if pre.contains_key(n) {
            assert(post[n] == pre[n]);
        }
    }
    assert forall|n: u32| #[trigger] post.contains_key(n) implies post.contains_key(post[n]) by {
        if n == root {
            assert(post[root] == root);
        }
    }
}

/// What a complete meeting-point path means under well-formed discoverer
/// maps: it runs from the first map's root to the second map's root, with
/// edges of the first graph up to the meeting point and edges of the second
/// graph (pointing backward) after it.
proof fn lemma_meet_path_props(
    seen: Map<u32, u32>,
    rev: Map<u32, u32>,
    ga: Map<u32, Seq<u32>>,
    gb: Map<u32, Seq<u32>>,
    root_a: u32,
    root_b: u32,
    p: Seq<u32>,
    k: int,
)
    requires
        seen_ok(seen, ga, root_a),
        seen_ok(rev, gb, root_b),
        meet_path(seen, rev, p, k),
    ensures
        p.len() >= 1,
        p[0] == root_a,
        p[p.len() - 1] == root_b,
        forall|i: int| 0 <= i < k ==> has_edge(ga, #[trigger] p[i], p[i + 1]),
        forall|i: int| k <= i < p.len() - 1 ==> has_edge(gb, #[trigger] p[i + 1], p[i]),
{
    let mt = p[k];
    let ta = p.take(k).reverse();
    let tb = p.skip(k + 1);
    assert(ta.len() == k);
    assert(tb.len() == p.len() - k - 1);
    assert forall|q: int| 0 <= q < ta.len() implies ta[q] == p[k - 1 - q] by {
        assert(ta[q] == p.take(k)[k - 1 - q]);
    }
    assert forall|q: int| 0 <= q < tb.len() implies tb[q] == p[k + 1 + q] by {}
    if k == 0 {
        assert(seen[mt] == mt);
        assert(p[0] == root_a);
    } else {
        assert(ta[ta.len() - 1] == p[0]);
        assert(seen[ta[ta.len() - 1]] == ta[ta.len() - 1]);
        assert(seen.contains_key(p[0]));
        assert(p[0] == root_a);
    }
    if tb.len() == 0 {
        assert(rev[mt] == mt);
        assert(p[p.len() - 1] == mt);
        assert(p[p.len() - 1] == root_b);
    } else {
        assert(tb[tb.len() - 1] == p[p.len() - 1]);
        assert(rev[tb[tb.len() - 1]] == tb[tb.len() - 1]);
        assert(rev.contains_key(p[p.len() - 1]));
        assert(p[p.len() - 1] == root_b);
    }
    assert forall|i: int| 0 <= i < k implies has_edge(ga, #[trigger] p[i], p[i + 1]) by {
        if i == k - 1 {
            assert(ta[0] == seen[mt]);
            assert(p[k - 1] == seen[p[k]]);
            assert(seen.contains_key(p[k]));
            assert(p[k] != root_a || seen[p[k]] == p[k]);
            if p[k] == root_a {
                assert(ta.len() > 0);
                assert(ta[0] == seen[root_a]);
                assert(seen[root_a] == root_a);
                assert(false) by {
                    assert(!(ta.len() == 0 <==> (!seen.contains_key(mt) || seen[mt] == mt)) || ta.len() == 0);
                }
            }
            assert(has_edge(ga, seen[p[k]], p[k]));
        } else {
            let q = k - 2 - i;
            assert(ta[q + 1] == seen[ta[q]]);
            assert(ta[q] == p[i + 1]);
            assert(ta[q + 1] == p[i]);
            assert(ta.contains(ta[q]));
            assert(seen.contains_key(ta[q]));
            let nd = ta[q];
            assert(nd != root_a ==> has_edge(ga, seen[nd], nd));
            if nd == root_a {
                assert(seen[root_a] == root_a);
                assert(ta[q + 1] == nd);
                assert(seen[ta[q + 1]] != ta[q + 1] || q + 1 == ta.len() - 1);
            }
            assert(has_edge(ga, p[i], p[i + 1]));
        }
    }
    assert forall|i: int| k <= i < p.len() - 1 implies has_edge(gb, #[trigger] p[i + 1], p[i]) by {
        if i == k {
            assert(tb.len() > 0);
            assert(tb[0] == rev[mt]);
            assert(p[k + 1] == rev[p[k]]);
            assert(rev.contains_key(p[k]));
            if p[k] == root_b {
                assert(rev[root_b] == root_b);
            }
            assert(has_edge(gb, rev[p[k]], p[k]));
        } else {
            let q = i - k - 1;
            assert(tb[q + 1] == rev[tb[q]]);
            assert(tb[q] == p[i]);
            assert(tb[q + 1] == p[i + 1]);
            assert(rev.contains_key(tb[q]));
            let nd = tb[q];
            assert(nd != root_b ==> has_edge(gb, rev[nd], nd));
            assert(has_edge(gb, p[i + 1], p[i]));
        }
    }
}

/// A fresh page ranked one above its discoverer keeps the ranking valid.
proof fn lemma_rank_insert(pre: Map<u32, u32>, rk: Map<u32, int>, next: u32, current: u32)
    requires
        rank_ok(pre, rk),
        disc_closed(pre),
        pre.contains_key(current),
        !pre.contains_key(next),
    ensures
        rank_ok(pre.insert(next, current), rk.insert(next, rk[current] + 1)),
{
    let m2 = pre.insert(next, current);
    let rk2 = rk.insert(next, rk[current] + 1);
    assert forall|x: u32| #[trigger] m2.contains_key(x) implies 0 <= rk2[x] && (m2[x] != x
        ==> rk2[m2[x]] < rk2[x]) by {
        if x == next {
            assert(m2[next] == current);
            assert(current != next);
            assert(rk2[current] == rk[current]);
        } else {
            assert(pre.contains_key(x));
            assert(pre[x] != next);
        }
    }
}

/// At the stop condition, a partial walk is a complete walk.
proof fn lemma_walk_stops(m: Map<u32, u32>, c: u32, cur: u32, t: Seq<u32>)
    requires
        disc_closed(m),
        chain_partial(m, c, cur, t),
        !m.contains_key(cur) || m[cur] == cur,
    ensures
        chain_from(m, c, t),
{
    if t.len() == 0 {
    } else {
        assert(t[t.len() - 1] == cur);
        assert(m.contains_key(cur));
    }
}

} // verus!

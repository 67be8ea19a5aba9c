//! The compact directed-graph structure: a mapping from a page to the
//! ordered sequence of pages it links to.
//!
//! Duplicate links are preserved, so a page may appear more than once in a
//! destination list. The structure is a list of key/list pairs with distinct
//! keys; its mathematical model is a `Map<u32, Seq<u32>>`.

use vstd::prelude::*;

verus! {

/// Mapping from a page identifier to the ordered sequence of page
/// identifiers it links to. Duplicates in a destination list are preserved;
/// keys are distinct.
pub struct AdjacencyMap {
    entries: Vec<(u32, Vec<u32>)>,
}

/// The sequence of key/list pairs a list of entries stands for.
pub open spec fn pairs_of(entries: Seq<(u32, Vec<u32>)>) -> Seq<(u32, Seq<u32>)> {
    entries.map_values(|e: (u32, Vec<u32>)| (e.0, e.1@))
}

/// The map a sequence of key/list pairs stands for; later pairs win,
/// though under `wf` the keys are distinct and no overwriting occurs.
pub open spec fn pairs_map(ps: Seq<(u32, Seq<u32>)>) -> Map<u32, Seq<u32>>
    decreases ps.len(),
{
    if ps.len() == 0 {
        Map::empty()
    } else {
        pairs_map(ps.drop_last()).insert(ps.last().0, ps.last().1)
    }
}

impl View for AdjacencyMap {
    type V = Map<u32, Seq<u32>>;

    open spec fn view(&self) -> Map<u32, Seq<u32>> {
        pairs_map(self.pairs())
    }
}

impl AdjacencyMap {
    /// The key/list pairs in insertion order.
    pub closed spec fn pairs(self) -> Seq<(u32, Seq<u32>)> {
        pairs_of(self.entries@)
    }

    /// Well-formed: all keys distinct.
    pub open spec fn wf(self) -> bool {
        forall|i: int, j: int|
            0 <= i < j < self.pairs().len() ==> #[trigger] self.pairs()[i].0
                != #[trigger] self.pairs()[j].0
    }

    /// An empty adjacency map.
    pub fn new() -> (r: AdjacencyMap)
        ensures
            r.wf(),
            r@ == Map::<u32, Seq<u32>>::empty(),
            r.pairs() == Seq::<(u32, Seq<u32>)>::empty(),
    {
        let r = AdjacencyMap { entries: Vec::new() };
        proof {
            assert(r.pairs() =~= Seq::<(u32, Seq<u32>)>::empty());
        }
        r
    }

    /// Number of pages that have at least one outgoing link recorded.
    pub fn len(&self) -> (n: usize)
        ensures
            n == self.pairs().len(),
    {
        self.entries.len()
    }

    /// The key of the pair at a position.
    pub fn key_at(&self, i: usize) -> (k: u32)
        requires
            i < self.pairs().len(),
        ensures
            k == self.pairs()[i as int].0,
    {
        self.entries[i].0
    }

    /// The destination list of the pair at a position.
    pub fn targets_at(&self, i: usize) -> (v: &Vec<u32>)
        requires
            i < self.pairs().len(),
        ensures
            v@ == self.pairs()[i as int].1,
    {
        &self.entries[i].1
    }

    /// Looks up the destination list of a page.
    pub fn get(&self, k: u32) -> (r: Option<&Vec<u32>>)
        requires
            self.wf(),
        ensures
            match r {
                Some(v) => self@.contains_key(k) && v@ == self@[k],
                None => !self@.contains_key(k),
            },
    {
        let n = self.entries.len();
        let mut i: usize = 0;
        while i < n
            invariant
                self.wf(),
                n == self.pairs().len(),
                i <= n,
                forall|j: int| 0 <= j < i ==> #[trigger] self.pairs()[j].0 != k,
            decreases n - i,
        {
            if self.entries[i].0 == k {
                proof {
                    lemma_pairs_map_props(self.pairs());
                    assert(self.pairs()[i as int] == (
                        self.entries@[i as int].0,
                        self.entries@[i as int].1@,
                    ));
                    assert(self.pairs()[i as int].0 == k);
                    assert(self@.contains_key(k));
                    assert(self@[k] == self.pairs()[i as int].1);
                }
                return Some(&self.entries[i].1);
            }
            i += 1;
        }
        proof {
            lemma_pairs_map_props(self.pairs());
        }
        None
    }

    /// Appends a destination to a page's list, creating the list if the page
    /// has none yet.
    pub fn push_edge(&mut self, from: u32, to: u32)
        requires
            old(self).wf(),
        ensures
            final(self).wf(),
            final(self)@ == (if old(self)@.contains_key(from) {
                old(self)@.insert(from, old(self)@[from].push(to))
            } else {
                old(self)@.insert(from, seq![to])
            }),
            old(self)@.contains_key(from) ==> final(self).pairs() =~= old(self).pairs().update(
                key_index(old(self).pairs(), from),
                (from, old(self)@[from].push(to)),
            ),
            !old(self)@.contains_key(from) ==> final(self).pairs() =~= old(self).pairs().push(
                (from, seq![to]),
            ),
    {
        proof {
            lemma_pairs_map_props(self.pairs());
        }
        match self.find_key(from) {
            Some(i) => {
                proof {
                    assert(key_index(self.pairs(), from) == i) by {
                        lemma_key_index(self.pairs(), from, i as int);
                    }
                }
                let ghost prev = self.pairs();
                let mut list: Vec<u32> = self.entries.remove(i).1;
                list.push(to);
                self.entries.insert(i, (from, list));
                proof {
                    assert(self.pairs() =~= prev.update(
                        i as int,
                        (from, old(self)@[from].push(to)),
                    ));
                    lemma_pairs_map_update(prev, i as int, to);
                }
            },
            None => {
                let mut v: Vec<u32> = Vec::new();
                v.push(to);
                self.entries.push((from, v));
                proof {
                    assert(self.pairs() =~= old(self).pairs().push((from, seq![to])));
                    assert(self@ == pairs_map(old(self).pairs().push((from, seq![to]))));
                    assert(old(self).pairs().push((from, seq![to])).drop_last() =~= old(
                        self,
                    ).pairs());
                }
            },
        }
    }

    /// Appends a whole pair for a page not yet present.
    pub fn push_entry(&mut self, k: u32, v: Vec<u32>)
        requires
            old(self).wf(),
            !old(self)@.contains_key(k),
        ensures
            final(self).wf(),
            final(self).pairs() == old(self).pairs().push((k, v@)),
            final(self)@ == old(self)@.insert(k, v@),
    {
        proof {
            lemma_pairs_map_props(self.pairs());
        }
        self.entries.push((k, v));
        proof {
            assert(self.pairs() =~= old(self).pairs().push((k, v@)));
            assert(old(self).pairs().push((k, v@)).drop_last() =~= old(self).pairs());
        }
    }

    /// The position of a page's pair, if the page has one.
    fn find_key(&self, k: u32) -> (r: Option<usize>)
        ensures
            match r {
                Some(i) => i < self.pairs().len() && self.pairs()[i as int].0 == k,
                None => forall|j: int| 0 <= j < self.pairs().len() ==> #[trigger] self.pairs()[j].0
                    != k,
            },
    {
        let n = self.entries.len();
        let mut i: usize = 0;
        while i < n
            invariant
                n == self.pairs().len(),
                i <= n,
                forall|j: int| 0 <= j < i ==> #[trigger] self.pairs()[j].0 != k,
            decreases n - i,
        {
            if self.entries[i].0 == k {
                return Some(i);
            }
            i += 1;
        }
        None
    }
}

/// How many times a value occurs in a sequence.
pub open spec fn occ(s: Seq<u32>, x: u32) -> nat
    decreases s.len(),
{
    if s.len() == 0 {
        0
    } else {
        occ(s.drop_last(), x) + (if s.last() == x {
            1nat
        } else {
            0nat
        })
    }
}

/// How many parallel edges from `u` to `v` an adjacency map records.
pub open spec fn edge_count(m: Map<u32, Seq<u32>>, u: u32, v: u32) -> nat {
    if m.contains_key(u) {
        occ(m[u], v)
    } else {
        0
    }
}

/// A value occurs in a sequence exactly when its count is positive.
pub proof fn lemma_occ_contains(s: Seq<u32>, x: u32)
    ensures
        occ(s, x) > 0 <==> s.contains(x),
    decreases s.len(),
{
    if s.len() > 0 {
        lemma_occ_contains(s.drop_last(), x);
        if s.contains(x) && s.last() != x {
            let i = choose|i: int| 0 <= i < s.len() && s[i] == x;
            assert(s.drop_last()[i] == x);
        }
        if s.drop_last().contains(x) {
            let i = choose|i: int| 0 <= i < s.drop_last().len() && s.drop_last()[i] == x;
            assert(s[i] == x);
        }
    }
}

/// Appending one value raises its count by one and no other.
pub proof fn lemma_occ_push(s: Seq<u32>, x: u32, y: u32)
    ensures
        occ(s.push(x), y) == occ(s, y) + (if x == y {
            1nat
        } else {
            0nat
        }),
{
    assert(s.push(x).drop_last() =~= s);
}

/// The position of a key among a sequence of pairs with distinct keys.
pub open spec fn key_index(ps: Seq<(u32, Seq<u32>)>, k: u32) -> int {
    choose|i: int| 0 <= i < ps.len() && ps[i].0 == k
}

proof fn lemma_key_index(ps: Seq<(u32, Seq<u32>)>, k: u32, i: int)
    requires
        0 <= i < ps.len(),
        ps[i].0 == k,
        forall|a: int, b: int| 0 <= a < b < ps.len() ==> #[trigger] ps[a].0 != #[trigger] ps[b].0,
    ensures
        key_index(ps, k) == i,
{
    let w = key_index(ps, k);
    assert(0 <= w < ps.len() && ps[w].0 == k);
}

/// Relates the pair sequence to the map it stands for, when keys are
/// distinct: membership, values, and domain.
pub proof fn lemma_pairs_map_props(ps: Seq<(u32, Seq<u32>)>)
    requires
        forall|a: int, b: int| 0 <= a < b < ps.len() ==> #[trigger] ps[a].0 != #[trigger] ps[b].0,
    ensures
        forall|k: u32|
            #[trigger] pairs_map(ps).contains_key(k) <==> exists|i: int|
                0 <= i < ps.len() && #[trigger] ps[i].0 == k,
        forall|i: int|
            0 <= i < ps.len() ==> pairs_map(ps).contains_key(#[trigger] ps[i].0) && pairs_map(ps)[
                ps[i].0
            ] == ps[i].1,
    decreases ps.len(),
{
    if ps.len() > 0 {
        let prefix = ps.drop_last();
        lemma_pairs_map_props(prefix);
        assert forall|i: int| 0 <= i < ps.len() implies pairs_map(ps).contains_key(
            #[trigger] ps[i].0,
        ) && pairs_map(ps)[ps[i].0] == ps[i].1 by {
            if i < ps.len() - 1 {
                assert(prefix[i] == ps[i]);
                assert(ps[i].0 != ps.last().0);
            }
        }
        assert forall|k: u32| #[trigger] pairs_map(ps).contains_key(k) implies exists|i: int|
            0 <= i < ps.len() && #[trigger] ps[i].0 == k by {
            if k == ps.last().0 {
                assert(ps[ps.len() - 1].0 == k);
            } else {
                assert(pairs_map(prefix).contains_key(k));
                let i = choose|i: int| 0 <= i < prefix.len() && #[trigger] prefix[i].0 == k;
                assert(ps[i].0 == k);
            }
        }
    }
}

proof fn lemma_pairs_map_update(ps: Seq<(u32, Seq<u32>)>, i: int, to: u32)
    requires
        forall|a: int, b: int| 0 <= a < b < ps.len() ==> #[trigger] ps[a].0 != #[trigger] ps[b].0,
        0 <= i < ps.len(),
    ensures
        pairs_map(ps.update(i, (ps[i].0, ps[i].1.push(to)))) == pairs_map(ps).insert(
            ps[i].0,
            ps[i].1.push(to),
        ),
    decreases ps.len(),
{
    lemma_pairs_map_props(ps);
    let updated = ps.update(i, (ps[i].0, ps[i].1.push(to)));
    if i == ps.len() - 1 {
        assert(updated.drop_last() =~= ps.drop_last());
        assert(pairs_map(updated) == pairs_map(ps.drop_last()).insert(ps[i].0, ps[i].1.push(to)));
        assert(pairs_map(ps).insert(ps[i].0, ps[i].1.push(to)) =~= pairs_map(
            ps.drop_last(),
        ).insert(ps[i].0, ps[i].1.push(to)));
    } else {
        let prefix = ps.drop_last();
        lemma_pairs_map_update(prefix, i, to);
        assert(updated.drop_last() =~= prefix.update(i, (prefix[i].0, prefix[i].1.push(to))));
        assert(updated.last() == ps.last());
        assert(ps[i].0 != ps.last().0);
        assert(pairs_map(ps.update(i, (ps[i].0, ps[i].1.push(to)))) =~= pairs_map(ps).insert(
            ps[i].0,
            ps[i].1.push(to),
        ));
    }
}

} // verus!

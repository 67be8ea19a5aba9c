//! The multi-stage resolution pipeline: turns the three raw dump tables
//! into one compact adjacency structure of article-to-article links.
//!
//! Stage one scans the page table and records each article title's page
//! identifier. Stage two scans the link-target table and resolves each
//! link-target identifier to a page identifier through the title index;
//! rows naming a title absent from the index are dropped silently. Stage
//! three scans the page-links table and appends one edge per row whose
//! link-target identifier resolved; unresolved rows are dropped silently.
//! Dangling references are an expected, steady-state condition of live
//! sources, never an error.

use std::collections::HashMap;

use vstd::prelude::*;

use crate::adjacency::AdjacencyMap;
use crate::row_scan::Row;
use crate::row_scan::RowPattern;
use crate::row_scan::RowV;
use crate::row_scan::ScanError;
use crate::row_scan::has_marker;
use crate::row_scan::parse_sql_file;
use crate::row_scan::table_rows;
use crate::row_scan::views;

verus! {

broadcast use vstd::std_specs::hash::group_hash_axioms;

/// The fixed read size of the chunked dump scans.
pub const CHUNK_SIZE: usize = 64 * 1024;

/// The title index a sequence of page rows builds up: each article title
/// maps to its page identifier, a later row replacing an earlier one.
pub open spec fn title_index_of(rows: Seq<RowV>) -> Map<Seq<u8>, u32>
    decreases rows.len(),
{
    if rows.len() == 0 {
        Map::empty()
    } else {
        let m = title_index_of(rows.drop_last());
        match rows.last() {
            RowV::Page { id, title } => m.insert(title, id),
            _ => m,
        }
    }
}

/// The link-target map a sequence of link-target rows builds up over a
/// title index: each link-target identifier whose title resolves maps to
/// that title's page identifier; the rest are dropped.
pub open spec fn link_targets_of(rows: Seq<RowV>, titles: Map<Seq<u8>, u32>) -> Map<u32, u32>
    decreases rows.len(),
{
    if rows.len() == 0 {
        Map::empty()
    } else {
        let m = link_targets_of(rows.drop_last(), titles);
        match rows.last() {
            RowV::LinkTarget { id, title } => if titles.contains_key(title) {
                m.insert(id, titles[title])
            } else {
                m
            },
            _ => m,
        }
    }
}

/// The adjacency a sequence of page-link rows builds up over a link-target
/// map: each row whose target resolves appends one destination to its
/// source's list; the rest are dropped.
pub open spec fn adjacency_of(rows: Seq<RowV>, lt: Map<u32, u32>) -> Map<u32, Seq<u32>>
    decreases rows.len(),
{
    if rows.len() == 0 {
        Map::empty()
    } else {
        let m = adjacency_of(rows.drop_last(), lt);
        match rows.last() {
            RowV::PageLink { from, target } => if lt.contains_key(target) {
                if m.contains_key(from) {
                    m.insert(from, m[from].push(lt[target]))
                } else {
                    m.insert(from, seq![lt[target]])
                }
            } else {
                m
            },
            _ => m,
        }
    }
}

/// The map a sequence of title/identifier pairs stands for; later pairs
/// win, though under distinct keys no overwriting occurs.
pub open spec fn title_pairs_map(ps: Seq<(Seq<u8>, u32)>) -> Map<Seq<u8>, u32>
    decreases ps.len(),
{
    if ps.len() == 0 {
        Map::empty()
    } else {
        title_pairs_map(ps.drop_last()).insert(ps.last().0, ps.last().1)
    }
}

/// Stage one's title index: a list of title/identifier pairs with distinct
/// titles, modelled as a `Map<Seq<u8>, u32>`.
pub struct TitleIndex {
    entries: Vec<(Vec<u8>, u32)>,
}

impl View for TitleIndex {
    type V = Map<Seq<u8>, u32>;

    open spec fn view(&self) -> Map<Seq<u8>, u32> {
        title_pairs_map(self.pairs())
    }
}

impl TitleIndex {
    /// The title/identifier pairs in insertion order.
    pub closed spec fn pairs(self) -> Seq<(Seq<u8>, u32)> {
        self.entries@.map_values(|e: (Vec<u8>, u32)| (e.0@, e.1))
    }

    /// Well-formed: all titles distinct.
    pub open spec fn wf(self) -> bool {
        forall|i: int, j: int|
            0 <= i < j < self.pairs().len() ==> #[trigger] self.pairs()[i].0
                != #[trigger] self.pairs()[j].0
    }

    /// An empty index.
    pub fn new() -> (r: TitleIndex)
        ensures
            r.wf(),
            r@ == Map::<Seq<u8>, u32>::empty(),
    {
        let r = TitleIndex { entries: Vec::new() };
        proof {
            assert(r.pairs() =~= Seq::<(Seq<u8>, u32)>::empty());
        }
        r
    }

    /// The position of a title's pair, if the title has one.
    fn find_key(&self, k: &Vec<u8>) -> (r: Option<usize>)
        ensures
            match r {
                Some(i) => i < self.pairs().len() && self.pairs()[i as int].0 == k@,
                None => forall|j: int| 0 <= j < self.pairs().len() ==> #[trigger] self.pairs()[j].0
                    != k@,
            },
    {
        let n = self.entries.len();
        let mut i: usize = 0;
        while i < n
            invariant
                n == self.pairs().len(),
                i <= n,
                forall|j: int| 0 <= j < i ==> #[trigger] self.pairs()[j].0 != k@,
            decreases n - i,
        {
            if bytes_eq(&self.entries[i].0, k) {
                proof {
                    assert(self.pairs()[i as int] == (
                        self.entries@[i as int].0@,
                        self.entries@[i as int].1,
                    ));
                }
                return Some(i);
            }
            i += 1;
        }
        None
    }

    /// Looks a title up.
    pub fn get(&self, k: &Vec<u8>) -> (r: Option<u32>)
        requires
            self.wf(),
        ensures
            match r {
                Some(v) => self@.contains_key(k@) && v == self@[k@],
                None => !self@.contains_key(k@),
            },
    {
        proof {
            lemma_title_pairs_map_props(self.pairs());
        }
        match self.find_key(k) {
            Some(i) => Some(self.entries[i].1),
            None => None,
        }
    }

    /// Records a title's page identifier, replacing any earlier record of
    /// the same title.
    pub fn insert(&mut self, k: Vec<u8>, v: u32)
        requires
            old(self).wf(),
        ensures
            final(self).wf(),
            final(self)@ == old(self)@.insert(k@, v),
    {
        proof {
            lemma_title_pairs_map_props(self.pairs());
        }
        match self.find_key(&k) {
            Some(i) => {
                let ghost prev = self.pairs();
                let _ = self.entries.remove(i);
                self.entries.insert(i, (k, v));
                proof {
                    assert(self.pairs() =~= prev.update(i as int, (prev[i as int].0, v)));
                    lemma_title_pairs_map_update(prev, i as int, v);
                }
            },
            None => {
                self.entries.push((k, v));
                proof {
                    assert(self.pairs() =~= old(self).pairs().push((k@, v)));
                    assert(old(self).pairs().push((k@, v)).drop_last() =~= old(self).pairs());
                }
            },
        }
    }
}

/// Whether two byte strings hold the same bytes.
fn bytes_eq(a: &Vec<u8>, b: &Vec<u8>) -> (r: bool)
    ensures
        r == (a@ == b@),
{
    let n = a.len();
    if n != b.len() {
        proof {
            assert(a@ != b@);
        }
        return false;
    }
    let mut i: usize = 0;
    while i < n
        invariant
            n == a@.len() == b@.len(),
            i <= n,
            forall|j: int| 0 <= j < i ==> a@[j] == b@[j],
        decreases n - i,
    {
        if a[i] != b[i] {
            return false;
        }
        i += 1;
    }
    proof {
        assert(a@ =~= b@);
    }
    true
}

/// Relates a title pair sequence with distinct titles to its map.
proof fn lemma_title_pairs_map_props(ps: Seq<(Seq<u8>, u32)>)
    requires
        forall|a: int, b: int| 0 <= a < b < ps.len() ==> #[trigger] ps[a].0 != #[trigger] ps[b].0,
    ensures
        forall|k: Seq<u8>|
            #[trigger] title_pairs_map(ps).contains_key(k) <==> exists|i: int|
                0 <= i < ps.len() && #[trigger] ps[i].0 == k,
        forall|i: int|
            0 <= i < ps.len() ==> title_pairs_map(ps).contains_key(#[trigger] ps[i].0)
                && title_pairs_map(ps)[ps[i].0] == ps[i].1,
    decreases ps.len(),
{
    if ps.len() > 0 {
        let prefix = ps.drop_last();
        lemma_title_pairs_map_props(prefix);
        assert forall|i: int| 0 <= i < ps.len() implies title_pairs_map(ps).contains_key(
            #[trigger] ps[i].0,
        ) && title_pairs_map(ps)[ps[i].0] == ps[i].1 by {
            if i < ps.len() - 1 {
                assert(prefix[i] == ps[i]);
                assert(ps[i].0 != ps.last().0);
            }
        }
        assert forall|k: Seq<u8>| #[trigger] title_pairs_map(ps).contains_key(k) implies exists|
            i: int,
        | 0 <= i < ps.len() && #[trigger] ps[i].0 == k by {
            if k == ps.last().0 {
                assert(ps[ps.len() - 1].0 == k);
            } else {
                assert(title_pairs_map(prefix).contains_key(k));
                let i = choose|i: int| 0 <= i < prefix.len() && #[trigger] prefix[i].0 == k;
                assert(ps[i].0 == k);
            }
        }
    }
}

/// Replacing a pair's value in place is an insert on the map.
proof fn lemma_title_pairs_map_update(ps: Seq<(Seq<u8>, u32)>, i: int, v: u32)
    requires
        forall|a: int, b: int| 0 <= a < b < ps.len() ==> #[trigger] ps[a].0 != #[trigger] ps[b].0,
        0 <= i < ps.len(),
    ensures
        title_pairs_map(ps.update(i, (ps[i].0, v))) == title_pairs_map(ps).insert(ps[i].0, v),
        forall|a: int, b: int|
            0 <= a < b < ps.update(i, (ps[i].0, v)).len() ==> #[trigger] ps.update(
                i,
                (ps[i].0, v),
            )[a].0 != #[trigger] ps.update(i, (ps[i].0, v))[b].0,
    decreases ps.len(),
{
    lemma_title_pairs_map_props(ps);
    let updated = ps.update(i, (ps[i].0, v));
    if i == ps.len() - 1 {
        assert(updated.drop_last() =~= ps.drop_last());
        assert(title_pairs_map(ps).insert(ps[i].0, v) =~= title_pairs_map(ps.drop_last()).insert(
            ps[i].0,
            v,
        ));
    } else {
        let prefix = ps.drop_last();
        lemma_title_pairs_map_update(prefix, i, v);
        assert(updated.drop_last() =~= prefix.update(i, (prefix[i].0, v)));
        assert(updated.last() == ps.last());
        assert(ps[i].0 != ps.last().0);
        assert(title_pairs_map(ps.update(i, (ps[i].0, v))) =~= title_pairs_map(ps).insert(
            ps[i].0,
            v,
        ));
    }
}

/// Resolves the three dump tables into one adjacency map of
/// article-to-article links, as the staged folds state. Fails only when a
/// table is missing its value-tuple marker; dangling references are
/// silently dropped.
pub fn generate_link_mapping(
    page_sql: &Vec<u8>,
    linktarget_sql: &Vec<u8>,
    pagelinks_sql: &Vec<u8>,
) -> (r: Result<AdjacencyMap, ScanError>)
    ensures
        match r {
            Ok(m) => {
                &&& has_marker(page_sql@, CHUNK_SIZE as int)
                &&& has_marker(linktarget_sql@, CHUNK_SIZE as int)
                &&& has_marker(pagelinks_sql@, CHUNK_SIZE as int)
                &&& m.wf()
                &&& m@ == adjacency_of(
                    table_rows(RowPattern::PageLink, pagelinks_sql@, CHUNK_SIZE as int),
                    link_targets_of(
                        table_rows(RowPattern::LinkTarget, linktarget_sql@, CHUNK_SIZE as int),
                        title_index_of(
                            table_rows(RowPattern::Page, page_sql@, CHUNK_SIZE as int),
                        ),
                    ),
                )
            },
            Err(e) => !has_marker(page_sql@, CHUNK_SIZE as int) || !has_marker(
                linktarget_sql@,
                CHUNK_SIZE as int,
            ) || !has_marker(pagelinks_sql@, CHUNK_SIZE as int),
        },
{
    let page_rows = match parse_sql_file(page_sql, RowPattern::Page, CHUNK_SIZE) {
        Ok(rows) => rows,
        Err(e) => {
            return Err(e);
        },
    };
    let mut page = TitleIndex::new();
    let n1 = page_rows.len();
    let mut i: usize = 0;
    proof {
        assert(views(page_rows@).take(0) =~= Seq::<RowV>::empty());
    }
    while i < n1
        invariant
            n1 == page_rows@.len(),
            i <= n1,
            page.wf(),
            page@ == title_index_of(views(page_rows@).take(i as int)),
        decreases n1 - i,
    {
        match &page_rows[i] {
            Row::Page { id, title } => {
                let t = copy_bytes(title);
                page.insert(t, *id);
            },
            _ => {},
        }
        proof {
            lemma_take_snoc_rows(views(page_rows@), i as int);
        }
        i += 1;
    }
    proof {
        assert(views(page_rows@).take(n1 as int) =~= views(page_rows@));
    }
    let lt_rows = match parse_sql_file(linktarget_sql, RowPattern::LinkTarget, CHUNK_SIZE) {
        Ok(rows) => rows,
        Err(e) => {
            return Err(e);
        },
    };
    let mut link_target: HashMap<u32, u32> = HashMap::new();
    let n2 = lt_rows.len();
    let mut i: usize = 0;
    proof {
        assert(views(lt_rows@).take(0) =~= Seq::<RowV>::empty());
    }
    while i < n2
        invariant
            n2 == lt_rows@.len(),
            i <= n2,
            page.wf(),
            page@ == title_index_of(views(page_rows@)),
            link_target@ == link_targets_of(views(lt_rows@).take(i as int), page@),
        decreases n2 - i,
    {
        match &lt_rows[i] {
            Row::LinkTarget { id, title } => {
                match page.get(title) {
                    Some(page_id) => {
                        link_target.insert(*id, page_id);
                    },
                    None => {},
                }
            },
            _ => {},
        }
        proof {
            lemma_take_snoc_rows(views(lt_rows@), i as int);
        }
        i += 1;
    }
    proof {
        assert(views(lt_rows@).take(n2 as int) =~= views(lt_rows@));
    }
    let pl_rows = match parse_sql_file(pagelinks_sql, RowPattern::PageLink, CHUNK_SIZE) {
        Ok(rows) => rows,
        Err(e) => {
            return Err(e);
        },
    };
    let mut links = AdjacencyMap::new();
    let n3 = pl_rows.len();
    let mut i: usize = 0;
    proof {
        assert(views(pl_rows@).take(0) =~= Seq::<RowV>::empty());
    }
    while i < n3
        invariant
            n3 == pl_rows@.len(),
            i <= n3,
            links.wf(),
            link_target@ == link_targets_of(views(lt_rows@), title_index_of(views(page_rows@))),
            links@ == adjacency_of(views(pl_rows@).take(i as int), link_target@),
        decreases n3 - i,
    {
        match &pl_rows[i] {
            Row::PageLink { from, target } => {
                match link_target.get(target) {
                    Some(page_id) => {
                        links.push_edge(*from, *page_id);
                    },
                    None => {},
                }
            },
            _ => {},
        }
        proof {
            lemma_take_snoc_rows(views(pl_rows@), i as int);
        }
        i += 1;
    }
    proof {
        assert(views(pl_rows@).take(n3 as int) =~= views(pl_rows@));
    }
    Ok(links)
}

/// One more row taken is one more fold step.
proof fn lemma_take_snoc_rows(rows: Seq<RowV>, i: int)
    requires
        0 <= i < rows.len(),
    ensures
        rows.take(i + 1).drop_last() == rows.take(i),
        rows.take(i + 1).last() == rows[i],
{
    assert(rows.take(i + 1).drop_last() =~= rows.take(i));
}

/// A copy of a byte string.
fn copy_bytes(v: &Vec<u8>) -> (r: Vec<u8>)
    ensures
        r@ == v@,
{
    let n = v.len();
    let mut r: Vec<u8> = Vec::new();
    let mut i: usize = 0;
    while i < n
        invariant
            n == v@.len(),
            i <= n,
            r@.len() == i,
            forall|j: int| 0 <= j < i ==> r@[j] == v@[j],
        decreases n - i,
    {
        r.push(v[i]);
        i += 1;
    }
    proof {
        assert(r@ =~= v@);
    }
    r
}

} // verus!

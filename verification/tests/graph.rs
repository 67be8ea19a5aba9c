use std::collections::HashMap;

use wiki_game_solver::AdjacencyMap;
use wiki_game_solver::bfs_directional_search_step;
use wiki_game_solver::populate_path_with_seen_by_until_circular;
use wiki_game_solver::LinkData;
use wiki_game_solver::bfs_bidirectional;
use wiki_game_solver::generate_links_reverse;

fn link_data_of(edges: &[(u32, u32)]) -> LinkData {
    let mut links_forward = AdjacencyMap::new();
    for &(u, v) in edges {
        links_forward.push_edge(u, v);
    }
    let links_reverse = generate_links_reverse(&links_forward);
    LinkData { links_forward, links_reverse }
}

#[test]
fn reverse_preserves_multiplicity() {
    // 1 links to 2 twice; the derived reverse map must record (2, 1) twice.
    let mut fwd = AdjacencyMap::new();
    fwd.push_edge(1, 2);
    fwd.push_edge(1, 2);
    fwd.push_edge(2, 3);
    fwd.push_edge(1, 3);
    let rev = generate_links_reverse(&fwd);
    assert_eq!(*rev.get(2).unwrap(), vec![1, 1]);
    let back_of_3 = rev.get(3).unwrap().clone();
    let mut sorted = back_of_3.clone();
    sorted.sort();
    assert_eq!(sorted, vec![1, 2]);
    assert!(rev.get(1).is_none());
}

#[test]
fn reverse_of_empty_graph_is_empty() {
    let fwd = AdjacencyMap::new();
    let rev = generate_links_reverse(&fwd);
    assert_eq!(rev.len(), 0);
}

#[test]
fn bidirectional_search_returns_shortest_path() {
    // {1->2, 2->3, 3->4, 1->5, 5->4}: from 1 to 4 the answer is the
    // two-edge path, not the longer one.
    let ld = link_data_of(&[(1, 2), (2, 3), (3, 4), (1, 5), (5, 4)]);
    assert_eq!(bfs_bidirectional(&ld, 1, 4), Some(vec![1, 5, 4]));
}

#[test]
fn search_with_equal_endpoints_returns_single_page() {
    let ld = link_data_of(&[(1, 2)]);
    assert_eq!(bfs_bidirectional(&ld, 7, 7), Some(vec![7]));
}

#[test]
fn search_without_path_returns_not_found() {
    // 11 sits in a component unreachable from 1.
    let ld = link_data_of(&[(1, 2), (10, 11)]);
    assert_eq!(bfs_bidirectional(&ld, 1, 11), None);
}

#[test]
fn search_follows_forward_edges_only() {
    // The edge runs 2 -> 1, so there is no path 1 -> 2.
    let ld = link_data_of(&[(2, 1)]);
    assert_eq!(bfs_bidirectional(&ld, 1, 2), None);
    assert_eq!(bfs_bidirectional(&ld, 2, 1), Some(vec![2, 1]));
}

#[test]
fn search_over_longer_chain() {
    let ld = link_data_of(&[(1, 2), (2, 3), (3, 4), (4, 5), (5, 6)]);
    assert_eq!(bfs_bidirectional(&ld, 1, 6), Some(vec![1, 2, 3, 4, 5, 6]));
}

#[test]
fn adjacency_map_get_and_push() {
    let mut m = AdjacencyMap::new();
    assert!(m.get(4).is_none());
    m.push_edge(4, 9);
    m.push_edge(4, 9);
    m.push_edge(4, 2);
    assert_eq!(*m.get(4).unwrap(), vec![9, 9, 2]);
    assert_eq!(m.len(), 1);
    assert_eq!(m.key_at(0), 4);
}

#[test]
fn discoverer_walk_stops_at_the_root() {
    let mut seen_by: HashMap<u32, u32> = HashMap::new();
    seen_by.insert(1, 1);
    seen_by.insert(2, 1);
    seen_by.insert(3, 2);
    let mut path: Vec<u32> = Vec::new();
    populate_path_with_seen_by_until_circular(&mut seen_by, &mut path, 3);
    assert_eq!(path, vec![2, 1]);
    // a page without an entry contributes nothing
    let mut empty_path: Vec<u32> = Vec::new();
    populate_path_with_seen_by_until_circular(&mut seen_by, &mut empty_path, 9);
    assert_eq!(empty_path, vec![]);
}

#[test]
fn directional_step_discovers_and_meets() {
    let mut links = AdjacencyMap::new();
    links.push_edge(1, 2);
    let mut queue = vec![1];
    let mut seen_by: HashMap<u32, u32> = HashMap::new();
    seen_by.insert(1, 1);
    let mut other: HashMap<u32, u32> = HashMap::new();
    other.insert(5, 5);
    let mut new_queue: Vec<u32> = Vec::new();
    // no meeting: 2 is discovered and queued for the next round
    let r = bfs_directional_search_step(&links, &mut queue, &mut seen_by, &mut other, &mut new_queue);
    assert!(r.is_none());
    assert_eq!(new_queue, vec![2]);
    assert_eq!(seen_by.get(&2), Some(&1));

    // meeting: the opposite direction already knows 2
    let mut seen_again: HashMap<u32, u32> = HashMap::new();
    seen_again.insert(1, 1);
    let mut other_meet: HashMap<u32, u32> = HashMap::new();
    other_meet.insert(2, 2);
    let mut queue2 = vec![1];
    let mut new_queue2: Vec<u32> = Vec::new();
    let r2 = bfs_directional_search_step(
        &links,
        &mut queue2,
        &mut seen_again,
        &mut other_meet,
        &mut new_queue2,
    );
    assert_eq!(r2, Some(vec![1, 2]));
}

#[test]
fn search_prefers_shorter_of_two_routes() {
    // two routes from 1 to 6: length four via 2,3,4 and length two via 5;
    // the answer must have two edges
    let ld = link_data_of(&[(1, 2), (2, 3), (3, 4), (4, 6), (1, 5), (5, 6)]);
    let path = bfs_bidirectional(&ld, 1, 6).unwrap();
    assert_eq!(path.len(), 3);
    assert_eq!(path, vec![1, 5, 6]);
}

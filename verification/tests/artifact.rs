use wiki_game_solver::AdjacencyMap;
use wiki_game_solver::decode_links;
use wiki_game_solver::encode_links;
use wiki_game_solver::get_link_data;

fn adjacency_of(edges: &[(u32, u32)]) -> AdjacencyMap {
    let mut m = AdjacencyMap::new();
    for &(u, v) in edges {
        m.push_edge(u, v);
    }
    m
}

#[test]
fn encode_decode_round_trips_exactly() {
    // Same keys, same per-key sequences, order and duplicates preserved.
    let m = adjacency_of(&[(1, 2), (1, 2), (3, 1), (1, 4), (5, 5)]);
    let bytes = encode_links(&m);
    let back = decode_links(&bytes).unwrap();
    assert_eq!(back.len(), m.len());
    for i in 0..m.len() {
        assert_eq!(back.key_at(i), m.key_at(i));
        assert_eq!(*back.targets_at(i), *m.targets_at(i));
    }
}

#[test]
fn encode_layout_is_the_documented_one() {
    // Tag word, pair count, then key, list length and values, all
    // little-endian.
    let m = adjacency_of(&[(5, 6), (5, 7)]);
    let bytes = encode_links(&m);
    assert_eq!(
        bytes,
        vec![
            0x31, 0x47, 0x4b, 0x57, // format tag
            1, 0, 0, 0, // one pair
            5, 0, 0, 0, // key
            2, 0, 0, 0, // list length
            6, 0, 0, 0, // first destination
            7, 0, 0, 0, // second destination
        ]
    );
}

#[test]
fn encode_of_empty_map() {
    let m = AdjacencyMap::new();
    let bytes = encode_links(&m);
    assert_eq!(bytes, vec![0x31, 0x47, 0x4b, 0x57, 0, 0, 0, 0]);
    let back = decode_links(&bytes).unwrap();
    assert_eq!(back.len(), 0);
}

#[test]
fn decode_rejects_short_input() {
    assert!(decode_links(&vec![]).is_err());
    assert!(decode_links(&vec![0x31, 0x47, 0x4b]).is_err());
}

#[test]
fn decode_rejects_wrong_tag() {
    let m = adjacency_of(&[(1, 2)]);
    let mut bytes = encode_links(&m);
    bytes[0] = 0x32;
    assert!(decode_links(&bytes).is_err());
}

#[test]
fn decode_rejects_truncated_body() {
    let m = adjacency_of(&[(1, 2), (3, 4)]);
    let mut bytes = encode_links(&m);
    bytes.pop();
    assert!(decode_links(&bytes).is_err());
}

#[test]
fn decode_rejects_trailing_bytes() {
    let m = adjacency_of(&[(1, 2)]);
    let mut bytes = encode_links(&m);
    bytes.push(0);
    assert!(decode_links(&bytes).is_err());
}

#[test]
fn decode_rejects_repeated_key() {
    // Two pairs with the same key cannot come from an adjacency map.
    let mut bytes = vec![0x31, 0x47, 0x4b, 0x57, 2, 0, 0, 0];
    for _ in 0..2 {
        bytes.extend_from_slice(&[9, 0, 0, 0, 1, 0, 0, 0, 3, 0, 0, 0]);
    }
    assert!(decode_links(&bytes).is_err());
}

#[test]
fn get_link_data_loads_both_directions() {
    let m = adjacency_of(&[(1, 2), (2, 3)]);
    let bytes = encode_links(&m);
    let ld = get_link_data(&bytes).unwrap();
    assert_eq!(*ld.links_forward.get(1).unwrap(), vec![2]);
    assert_eq!(*ld.links_reverse.get(3).unwrap(), vec![2]);
    assert_eq!(*ld.links_reverse.get(2).unwrap(), vec![1]);
}

#[test]
fn get_link_data_rejects_bad_artifact() {
    assert!(get_link_data(&vec![1, 2, 3]).is_err());
}

#[test]
fn decode_rejects_absurd_length_claim() {
    // one pair whose list length claims more values than the bytes hold
    let bytes = vec![
        0x31, 0x47, 0x4b, 0x57, 1, 0, 0, 0, 9, 0, 0, 0, 0xff, 0xff, 0xff, 0xff,
    ];
    assert!(decode_links(&bytes).is_err());
}

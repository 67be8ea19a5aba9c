use wiki_game_solver::Row;
use wiki_game_solver::RowPattern;
use wiki_game_solver::TitleIndex;
use wiki_game_solver::generate_link_mapping;
use wiki_game_solver::parse_sql_file;

#[test]
fn row_straddling_a_tiny_chunk_boundary_is_extracted_once() {
    // With an eight-byte chunk the second row spans a chunk boundary; the
    // cursor falls back to the end of the first match, so the row is
    // rescanned whole: neither dropped nor duplicated.
    let input = b"VALUES (1,0,2),(3,0,4)".to_vec();
    let rows = parse_sql_file(&input, RowPattern::PageLink, 10).unwrap();
    assert_eq!(
        rows,
        vec![
            Row::PageLink { from: 1, target: 2 },
            Row::PageLink { from: 3, target: 4 },
        ]
    );
    // A chunk larger than the whole input finds the same rows.
    let rows_large = parse_sql_file(&input, RowPattern::PageLink, 4096).unwrap();
    assert_eq!(rows, rows_large);
}

#[test]
fn page_rows_capture_id_and_title() {
    let input = b"INSERT INTO page VALUES (12,0,'Alpha',20),(9,4,'Talk',1),(7,0,'A\\'s',3)"
        .to_vec();
    let rows = parse_sql_file(&input, RowPattern::Page, 4096).unwrap();
    assert_eq!(
        rows,
        vec![
            Row::Page { id: 12, title: b"Alpha".to_vec() },
            // the namespace-4 row does not match the article grammar
            Row::Page { id: 7, title: b"A\\'s".to_vec() },
        ]
    );
}

#[test]
fn link_target_rows_capture_id_and_title() {
    let input = b"VALUES (5,0,'Beta'),(6,0,'')".to_vec();
    let rows = parse_sql_file(&input, RowPattern::LinkTarget, 4096).unwrap();
    assert_eq!(
        rows,
        vec![
            Row::LinkTarget { id: 5, title: b"Beta".to_vec() },
            Row::LinkTarget { id: 6, title: b"".to_vec() },
        ]
    );
}

#[test]
fn oversized_identifier_is_not_a_row() {
    // 4294967296 does not fit a 32-bit identifier.
    let input = b"VALUES (4294967296,0,2),(4294967295,0,2)".to_vec();
    let rows = parse_sql_file(&input, RowPattern::PageLink, 4096).unwrap();
    assert_eq!(rows, vec![Row::PageLink { from: 4294967295, target: 2 }]);
}

#[test]
fn missing_marker_is_a_format_error() {
    let input = b"INSERT INTO x (1,0,2)".to_vec();
    assert!(parse_sql_file(&input, RowPattern::PageLink, 4096).is_err());
}

#[test]
fn marker_beyond_first_chunk_is_a_format_error() {
    // The marker must stand in the initial chunk.
    let input = b"-- padding padding -- VALUES (1,0,2)".to_vec();
    assert!(parse_sql_file(&input, RowPattern::PageLink, 8).is_err());
    assert!(parse_sql_file(&input, RowPattern::PageLink, 4096).is_ok());
}

#[test]
fn dangling_link_target_is_dropped_without_failure() {
    // The link-target row naming 'Gamma' resolves to no page; it must be
    // excluded from the final adjacency map, not fail the build.
    let page = b"VALUES (1,0,'Alpha',20),(2,0,'Beta',30)".to_vec();
    let linktarget = b"VALUES (7,0,'Alpha'),(8,0,'Gamma')".to_vec();
    let pagelinks = b"VALUES (2,0,7),(2,0,8),(1,0,8)".to_vec();
    let links = generate_link_mapping(&page, &linktarget, &pagelinks).unwrap();
    assert_eq!(links.len(), 1);
    assert_eq!(*links.get(2).unwrap(), vec![1]);
    assert!(links.get(1).is_none());
}

#[test]
fn link_mapping_resolves_through_both_stages() {
    let page = b"VALUES (10,0,'A',1),(20,0,'B',1),(30,0,'C',1)".to_vec();
    let linktarget = b"VALUES (1,0,'A'),(2,0,'B'),(3,0,'C')".to_vec();
    let pagelinks = b"VALUES (10,0,2),(10,0,3),(20,0,1),(20,0,1)".to_vec();
    let links = generate_link_mapping(&page, &linktarget, &pagelinks).unwrap();
    assert_eq!(*links.get(10).unwrap(), vec![20, 30]);
    // duplicate links are preserved
    assert_eq!(*links.get(20).unwrap(), vec![10, 10]);
}

#[test]
fn link_mapping_fails_on_missing_marker() {
    let good = b"VALUES (1,0,'A',1)".to_vec();
    let bad = b"no tuples here".to_vec();
    assert!(generate_link_mapping(&bad, &good, &good).is_err());
    assert!(generate_link_mapping(&good, &bad, &good).is_err());
    assert!(generate_link_mapping(&good, &good, &bad).is_err());
}

#[test]
fn title_index_keeps_latest_record_per_title() {
    let mut idx = TitleIndex::new();
    idx.insert(b"Alpha".to_vec(), 1);
    idx.insert(b"Beta".to_vec(), 2);
    idx.insert(b"Alpha".to_vec(), 3);
    assert_eq!(idx.get(&b"Alpha".to_vec()), Some(3));
    assert_eq!(idx.get(&b"Beta".to_vec()), Some(2));
    assert_eq!(idx.get(&b"Gamma".to_vec()), None);
}

#[test]
fn empty_input_has_no_marker() {
    assert!(parse_sql_file(&vec![], RowPattern::Page, 64).is_err());
}

#[test]
fn marker_with_no_rows_yields_no_rows() {
    let rows = parse_sql_file(&b"VALUES ".to_vec(), RowPattern::Page, 64).unwrap();
    assert_eq!(rows, vec![]);
}

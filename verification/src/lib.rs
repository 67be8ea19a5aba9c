//! Finds the shortest chain of links between two encyclopedia articles.
//!
//! The crate ingests relational table dumps of an encyclopedia's pages and
//! links, compacts them into a directed graph keyed by integer page
//! identifiers, persists that graph as a versioned binary artifact, and
//! serves shortest-path queries with a bidirectional breadth-first search
//! over an in-memory snapshot that is rebuilt whenever a fresh artifact is
//! published.

mod adjacency;
mod bfs;
mod builder;
mod codec;
mod link_data;
mod manager;
mod row_scan;

pub use adjacency::AdjacencyMap;
pub use adjacency::edge_count;
pub use adjacency::occ;
pub use adjacency::pairs_map;
pub use bfs::bfs_bidirectional;
pub use bfs::bfs_directional_search_step;
pub use bfs::bfs_generate_path;
pub use bfs::chain_from;
pub use bfs::disc_closed;
pub use bfs::has_edge;
pub use bfs::meet_path;
pub use bfs::met;
pub use bfs::path_ok;
pub use bfs::populate_path_with_seen_by_until_circular;
pub use bfs::rank_ok;
pub use bfs::reachable;
pub use bfs::reaches;
pub use bfs::seen_ok;
pub use builder::CHUNK_SIZE;
pub use builder::TitleIndex;
pub use builder::adjacency_of;
pub use builder::generate_link_mapping;
pub use builder::link_targets_of;
pub use builder::title_index_of;
pub use codec::DecodeError;
pub use codec::FORMAT_TAG;
pub use codec::decode_links;
pub use codec::encodable;
pub use codec::encode_links;
pub use codec::keys_distinct;
pub use codec::lemma_encode_decode;
pub use codec::spec_decode;
pub use codec::spec_encode;
pub use link_data::LinkData;
pub use link_data::generate_links_reverse;
pub use link_data::get_link_data;
pub use manager::FileWatcher;
pub use manager::QUIET_WINDOW_SECS;
pub use manager::QueryOutcome;
pub use manager::SETTLE_DELAY_SECS;
pub use manager::SnapshotManager;
pub use row_scan::Row;
pub use row_scan::RowPattern;
pub use row_scan::RowV;
pub use row_scan::ScanError;
pub use row_scan::fits_from;
pub use row_scan::has_marker;
pub use row_scan::lemma_chunked_scan_complete;
pub use row_scan::lemma_single_chunk_scan;
pub use row_scan::no_inner_matches;
pub use row_scan::parse_sql_file;
pub use row_scan::scan_chunks;
pub use row_scan::scan_from;
pub use row_scan::spec_row_at;
pub use row_scan::table_rows;
pub use row_scan::views;

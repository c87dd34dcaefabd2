use assembly_graph::{AssemblyGraph, GraphError};
use awry::fm_index::FmIndex;
use std::collections::BTreeMap;
use std::io::Write;

fn slot_of(symbol: u8) -> usize {
    match symbol {
        b'$' => 0,
        b'A' => 1,
        b'C' => 2,
        b'G' => 3,
        b'T' => 5,
        _ => 4,
    }
}

fn bits_of(slot: usize) -> u64 {
    match slot {
        0 => 0b100,
        1 => 0b110,
        2 => 0b101,
        3 => 0b011,
        5 => 0b001,
        _ => 0b010,
    }
}

/// The bytes of an index file for a text, with the prefix sums given or, if
/// none are given, those of the text.
fn index_bytes(text: &str, sums: Option<[u64; 7]>) -> Vec<u8> {
    let mut symbols: Vec<u8> = text.as_bytes().to_vec();
    symbols.push(b'$');
    let rows = symbols.len();
    let mut suffixes: Vec<usize> = (0..rows).collect();
    suffixes.sort_by(|a, b| symbols[*a..].cmp(&symbols[*b..]));

    let ratio: u64 = 1 << 62;
    let mut bytes: Vec<u8> = Vec::new();
    bytes.extend_from_slice(b"AWRY-Index\n");
    for value in [1u64, ratio, rows as u64, 0u64] {
        bytes.extend_from_slice(&value.to_le_bytes());
    }

    let block_count = (rows + 255) / 256;
    let mut counts = [0u64; 6];
    for block in 0..block_count {
        let milestones = counts;
        let mut vectors = [[0u64; 4]; 3];
        for place in 0..256 {
            let row = block * 256 + place;
            if row >= rows {
                break;
            }
            let symbol = if suffixes[row] == 0 { b'$' } else { symbols[suffixes[row] - 1] };
            let slot = slot_of(symbol);
            let bits = bits_of(slot);
            for bit in 0..3 {
                if (bits >> bit) & 1 == 1 {
                    vectors[bit][place / 64] |= 1u64 << (place % 64);
                }
            }
            counts[slot] += 1;
        }
        for vector in vectors.iter() {
            for word in vector.iter() {
                bytes.extend_from_slice(&word.to_le_bytes());
            }
        }
        for milestone in 0..8 {
            let value = if milestone < 6 { milestones[milestone] } else { 0 };
            bytes.extend_from_slice(&value.to_le_bytes());
        }
    }

    let mut own_sums = [0u64; 7];
    for slot in 0..6 {
        own_sums[slot + 1] = own_sums[slot] + counts[slot];
    }
    for sum in sums.unwrap_or(own_sums).iter() {
        bytes.extend_from_slice(&sum.to_le_bytes());
    }

    if rows > 1 {
        bytes.extend_from_slice(&(suffixes[0] as u64).to_le_bytes());
    }

    bytes.push(1u8);
    for _ in 0..4 {
        bytes.extend_from_slice(&1u64.to_le_bytes());
        bytes.extend_from_slice(&0u64.to_le_bytes());
    }
    bytes.extend_from_slice(&0u64.to_le_bytes());
    bytes
}

fn load_index(bytes: &[u8]) -> FmIndex {
    let mut file = tempfile::NamedTempFile::new().expect("no temporary file");
    file.write_all(bytes).expect("the index file cannot be written");
    file.flush().expect("the index file cannot be written");
    FmIndex::load(file.path()).expect("the index file cannot be loaded")
}

fn index_of(text: &str) -> FmIndex {
    load_index(&index_bytes(text, None))
}

fn counts_of(graph: &AssemblyGraph) -> BTreeMap<String, u64> {
    let mut counts = BTreeMap::new();
    for i in 0..graph.edge_count() {
        let (kmer, count) = graph.edge(i);
        assert!(counts.insert(kmer.clone(), count).is_none(), "{} has two edges", kmer);
    }
    counts
}

fn expected(pairs: &[(&str, u64)]) -> BTreeMap<String, u64> {
    pairs.iter().map(|(kmer, count)| (kmer.to_string(), *count)).collect()
}

/// Counts the k-mers of a text position by position.
fn counted_by_hand(text: &str, k: usize) -> BTreeMap<String, u64> {
    let mut counts = BTreeMap::new();
    let symbols = text.as_bytes();
    if k == 0 || k > symbols.len() {
        return counts;
    }
    for at in 0..=(symbols.len() - k) {
        let window = &symbols[at..at + k];
        if window.iter().all(|s| b"AGCT".contains(s)) {
            *counts.entry(String::from_utf8(window.to_vec()).unwrap()).or_insert(0u64) += 1;
        }
    }
    counts
}

#[test]
fn repeated_text_gives_each_kmer_with_its_count() {
    let index = index_of("AGCTAGCT");
    let graph = AssemblyGraph::new(&index, 3).expect("no graph");
    assert_eq!(
        counts_of(&graph),
        expected(&[("AGC", 2), ("GCT", 2), ("CTA", 1), ("TAG", 1)])
    );
    assert_eq!(graph.edge_count(), 4);
    assert_eq!(graph.count_of("AGC"), Some(2));
    assert_eq!(graph.count_of("CGA"), None);
    assert_eq!(graph.count_of("AGG"), None);
}

#[test]
fn text_without_repeats_gives_one_kmer() {
    let index = index_of("AGCT");
    let graph = AssemblyGraph::new(&index, 4).expect("no graph");
    assert_eq!(counts_of(&graph), expected(&[("AGCT", 1)]));
}

#[test]
fn kmer_longer_than_text_gives_empty_graph() {
    let index = index_of("AGCT");
    let graph = AssemblyGraph::new(&index, 5).expect("no graph");
    assert_eq!(graph.edge_count(), 0);
    let graph = AssemblyGraph::new(&index, 100).expect("no graph");
    assert_eq!(graph.edge_count(), 0);
}

#[test]
fn empty_text_gives_empty_graph() {
    let index = index_of("");
    for k in [1usize, 2, 3, 10, 100] {
        let graph = AssemblyGraph::new(&index, k).expect("no graph");
        assert_eq!(graph.edge_count(), 0);
        assert_eq!(graph.wg_file_text(), "");
    }
}

#[test]
fn single_symbols_are_counted() {
    let index = index_of("AGCTAGCTA");
    let graph = AssemblyGraph::new(&index, 1).expect("no graph");
    assert_eq!(counts_of(&graph), expected(&[("A", 3), ("G", 2), ("C", 2), ("T", 2)]));
}

#[test]
fn overlapping_occurrences_all_count() {
    let index = index_of("AAAAA");
    let graph = AssemblyGraph::new(&index, 2).expect("no graph");
    assert_eq!(counts_of(&graph), expected(&[("AA", 4)]));
    let graph = AssemblyGraph::new(&index, 5).expect("no graph");
    assert_eq!(counts_of(&graph), expected(&[("AAAAA", 1)]));
}

#[test]
fn kmers_are_read_in_the_direction_of_the_text() {
    let index = index_of("AAC");
    let graph = AssemblyGraph::new(&index, 2).expect("no graph");
    assert_eq!(counts_of(&graph), expected(&[("AA", 1), ("AC", 1)]));
    assert_eq!(graph.count_of("CA"), None);
}

#[test]
fn kmers_do_not_run_over_other_letters() {
    let index = index_of("AGCTNAGCA");
    let graph = AssemblyGraph::new(&index, 3).expect("no graph");
    assert_eq!(
        counts_of(&graph),
        expected(&[("AGC", 2), ("GCT", 1), ("GCA", 1)])
    );
}

#[test]
fn graph_holds_exactly_the_kmers_of_the_text() {
    let texts = [
        "ACGTACGTTTGACA",
        "GATTACAGATTACA",
        "TTTTTTTTTT",
        "ACGNNACGTNACG",
        "CAGTCAGTCAGGCATGCATTTACGACGACGT",
    ];
    for text in texts {
        let index = index_of(text);
        for k in 1..=text.len() + 1 {
            let graph = AssemblyGraph::new(&index, k).expect("no graph");
            assert_eq!(counts_of(&graph), counted_by_hand(text, k), "{} with k = {}", text, k);
        }
    }
}

#[test]
fn text_longer_than_one_block_is_counted() {
    let mut text = String::new();
    for i in 0..700usize {
        text.push(b"ACGT"[(i * i + i / 3) % 4] as char);
    }
    let index = index_of(&text);
    for k in [1usize, 2, 5, 9] {
        let graph = AssemblyGraph::new(&index, k).expect("no graph");
        assert_eq!(counts_of(&graph), counted_by_hand(&text, k), "k = {}", k);
    }
}

#[test]
fn kmer_length_zero_is_refused() {
    let index = index_of("AGCT");
    assert!(matches!(AssemblyGraph::new(&index, 0), Err(GraphError::InvalidKmerLength)));
}

#[test]
fn kmer_length_above_the_limit_is_refused() {
    let index = index_of("AGCT");
    assert_eq!(assembly_graph::assembly_graph::MAX_KMER_LEN, 100);
    assert!(AssemblyGraph::new(&index, 100).is_ok());
    assert!(matches!(AssemblyGraph::new(&index, 101), Err(GraphError::InvalidKmerLength)));
    assert!(matches!(AssemblyGraph::new(&index, usize::MAX), Err(GraphError::InvalidKmerLength)));
}

#[test]
fn index_without_prefix_sums_is_refused() {
    let index = load_index(&index_bytes("AGCT", Some([0, 0, 0, 0, 0, 0, 0])));
    assert!(matches!(AssemblyGraph::new(&index, 2), Err(GraphError::InconsistentIndex)));
}

#[test]
fn index_with_range_outside_is_refused() {
    let index = load_index(&index_bytes("AGCT", Some([0, 1, 50, 51, 52, 52, 53])));
    assert!(matches!(AssemblyGraph::new(&index, 2), Err(GraphError::InconsistentIndex)));
}

#[test]
fn kmer_length_is_checked_before_the_index() {
    let index = load_index(&index_bytes("AGCT", Some([0, 0, 0, 0, 0, 0, 0])));
    assert!(matches!(AssemblyGraph::new(&index, 0), Err(GraphError::InvalidKmerLength)));
}

#[test]
fn graph_of_index_is_written_with_one_line_for_each_kmer() {
    let index = index_of("AGCTAGCT");
    let graph = AssemblyGraph::new(&index, 3).expect("no graph");
    let text = graph.wg_file_text();
    let mut seen: BTreeMap<String, u64> = BTreeMap::new();
    let mut ids: BTreeMap<String, u64> = BTreeMap::new();
    for line in text.lines() {
        let fields: Vec<&str> = line.split('\t').collect();
        assert_eq!(fields.len(), 4);
        let kmer = fields[3];
        assert_eq!(kmer.len(), 3);
        let from: u64 = fields[0].parse().unwrap();
        let to: u64 = fields[1].parse().unwrap();
        assert!(from >= 2 && to >= 2);
        assert_eq!(*ids.entry(kmer[..2].to_string()).or_insert(from), from);
        assert_eq!(*ids.entry(kmer[1..].to_string()).or_insert(to), to);
        seen.insert(kmer.to_string(), fields[2].parse().unwrap());
    }
    assert_eq!(seen, expected(&[("AGC", 2), ("GCT", 2), ("CTA", 1), ("TAG", 1)]));
    let mut numbers: Vec<u64> = ids.values().copied().collect();
    numbers.sort();
    assert_eq!(numbers, vec![2, 3, 4, 5]);
    assert!(text.ends_with('\n'));
}

#[test]
fn search_adds_to_the_edges_that_a_graph_holds() {
    let index = index_of("AGCTAGCT");
    let mut graph = AssemblyGraph::empty();
    graph.add_edge("TTT".to_string(), 9);
    graph.add_edge("AGC".to_string(), 40);
    AssemblyGraph::create_edges(&mut graph, &index, 3).expect("the search failed");
    assert_eq!(
        counts_of(&graph),
        expected(&[("TTT", 9), ("AGC", 2), ("GCT", 2), ("CTA", 1), ("TAG", 1)])
    );
}

#[test]
fn failed_search_keeps_the_edges_that_a_graph_holds() {
    let index = load_index(&index_bytes("AGCT", Some([0, 1, 50, 51, 52, 52, 53])));
    let mut graph = AssemblyGraph::empty();
    graph.add_edge("TT".to_string(), 9);
    assert!(matches!(
        AssemblyGraph::create_edges(&mut graph, &index, 2),
        Err(GraphError::InconsistentIndex)
    ));
    assert_eq!(graph.count_of("TT"), Some(9));
}

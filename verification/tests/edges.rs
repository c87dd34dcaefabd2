use assembly_graph::wg_file::{decimal_string, EdgeLine};
use assembly_graph::assembly_graph::search_step;
use assembly_graph::{
    is_fastq_file, AssemblyGraph, GraphError, MatchRange, ProgramArgs, SearchStep, StringIdMap,
};

#[test]
fn first_identifier_is_two() {
    let mut ids = StringIdMap::new();
    assert_eq!(ids.get_node_id(&"AG".to_string()), 2);
}

#[test]
fn identifiers_follow_the_order_of_first_lookup() {
    let mut ids = StringIdMap::new();
    assert_eq!(ids.get_node_id(&"AG".to_string()), 2);
    assert_eq!(ids.get_node_id(&"GC".to_string()), 3);
    assert_eq!(ids.get_node_id(&"CT".to_string()), 4);
    assert_eq!(ids.get_node_id(&"".to_string()), 5);
}

#[test]
fn known_string_keeps_its_identifier() {
    let mut ids = StringIdMap::new();
    let first = ids.get_node_id(&"AG".to_string());
    let second = ids.get_node_id(&"GC".to_string());
    assert_eq!(ids.get_node_id(&"AG".to_string()), first);
    assert_eq!(ids.get_node_id(&"GC".to_string()), second);
    assert_eq!(ids.get_node_id(&"AG".to_string()), first);
    assert_ne!(first, second);
    assert_eq!(ids.get_node_id(&"TT".to_string()), 4);
}

#[test]
fn each_interner_starts_anew() {
    let mut one = StringIdMap::new();
    one.get_node_id(&"AG".to_string());
    one.get_node_id(&"GC".to_string());
    let mut other = StringIdMap::new();
    assert_eq!(other.get_node_id(&"GC".to_string()), 2);
}

#[test]
fn empty_graph_has_no_edges() {
    let graph = AssemblyGraph::empty();
    assert_eq!(graph.edge_count(), 0);
    assert_eq!(graph.count_of("AGC"), None);
    assert_eq!(graph.wg_file_text(), "");
    assert!(graph.edge_lines().is_empty());
}

#[test]
fn added_edge_is_found_with_its_count() {
    let mut graph = AssemblyGraph::empty();
    graph.add_edge("AGC".to_string(), 2);
    graph.add_edge("GCT".to_string(), 7);
    assert_eq!(graph.edge_count(), 2);
    assert_eq!(graph.count_of("AGC"), Some(2));
    assert_eq!(graph.count_of("GCT"), Some(7));
    assert_eq!(graph.count_of("CTA"), None);
    let (kmer, count) = graph.edge(1);
    assert_eq!(kmer, "GCT");
    assert_eq!(count, 7);
}

#[test]
fn adding_an_edge_again_replaces_its_count() {
    let mut graph = AssemblyGraph::empty();
    graph.add_edge("AGC".to_string(), 2);
    graph.add_edge("GCT".to_string(), 7);
    graph.add_edge("AGC".to_string(), 5);
    assert_eq!(graph.edge_count(), 2);
    assert_eq!(graph.count_of("AGC"), Some(5));
    assert_eq!(graph.count_of("GCT"), Some(7));
    let (kmer, count) = graph.edge(0);
    assert_eq!(kmer, "AGC");
    assert_eq!(count, 5);
    graph.add_edge("AGC".to_string(), 5);
    assert_eq!(graph.edge_count(), 2);
    assert_eq!(graph.count_of("AGC"), Some(5));
}

#[test]
fn lines_hold_the_identifiers_of_both_nodes() {
    let mut graph = AssemblyGraph::empty();
    graph.add_edge("AGC".to_string(), 2);
    graph.add_edge("GCT".to_string(), 2);
    graph.add_edge("CTA".to_string(), 1);
    graph.add_edge("TAG".to_string(), 1);
    let lines = graph.edge_lines();
    let fields: Vec<(u64, u64, u64, &str)> = lines
        .iter()
        .map(|l| (l.from_node_id, l.to_node_id, l.count, l.kmer.as_str()))
        .collect();
    assert_eq!(
        fields,
        vec![(2, 3, 2, "AGC"), (3, 4, 2, "GCT"), (4, 5, 1, "CTA"), (5, 2, 1, "TAG")]
    );
}

#[test]
fn file_text_has_four_fields_on_each_line() {
    let mut graph = AssemblyGraph::empty();
    graph.add_edge("AGC".to_string(), 2);
    graph.add_edge("GCT".to_string(), 2);
    graph.add_edge("CTA".to_string(), 1);
    graph.add_edge("TAG".to_string(), 1);
    assert_eq!(
        graph.wg_file_text(),
        "2\t3\t2\tAGC\n3\t4\t2\tGCT\n4\t5\t1\tCTA\n5\t2\t1\tTAG\n"
    );
}

#[test]
fn edge_with_equal_nodes_uses_one_identifier() {
    let mut graph = AssemblyGraph::empty();
    graph.add_edge("AAA".to_string(), 12);
    graph.add_edge("AAC".to_string(), 3);
    assert_eq!(graph.wg_file_text(), "2\t2\t12\tAAA\n2\t3\t3\tAAC\n");
}

#[test]
fn kmer_of_one_symbol_has_the_empty_node_on_both_sides() {
    let mut graph = AssemblyGraph::empty();
    graph.add_edge("A".to_string(), 4);
    graph.add_edge("C".to_string(), 1);
    assert_eq!(graph.wg_file_text(), "2\t2\t4\tA\n2\t2\t1\tC\n");
}

#[test]
fn writing_twice_gives_the_same_text() {
    let mut graph = AssemblyGraph::empty();
    graph.add_edge("GAT".to_string(), 1);
    graph.add_edge("ATT".to_string(), 9);
    let first = graph.wg_file_text();
    assert_eq!(graph.wg_file_text(), first);
    assert_eq!(first, "2\t3\t1\tGAT\n3\t4\t9\tATT\n");
}

#[test]
fn line_text_ends_with_a_line_feed() {
    let line = EdgeLine {
        from_node_id: 10,
        to_node_id: 2,
        count: 18446744073709551615,
        kmer: "ACGT".to_string(),
    };
    assert_eq!(line.text(), "10\t2\t18446744073709551615\tACGT\n");
}

#[test]
fn numbers_are_written_in_decimal() {
    assert_eq!(decimal_string(0), "0");
    assert_eq!(decimal_string(7), "7");
    assert_eq!(decimal_string(10), "10");
    assert_eq!(decimal_string(1234567890), "1234567890");
    assert_eq!(decimal_string(u64::MAX), "18446744073709551615");
}

#[test]
fn range_is_empty_when_start_is_above_end() {
    assert!(MatchRange { start: 1, end: 0 }.is_empty());
    assert!(MatchRange { start: 999, end: 0 }.is_empty());
    assert!(!MatchRange { start: 3, end: 3 }.is_empty());
    assert_eq!(MatchRange { start: 3, end: 3 }.len(), 1);
    assert_eq!(MatchRange { start: 2, end: 9 }.len(), 8);
    assert_eq!(MatchRange { start: 5, end: 4 }.len(), 0);
    assert_eq!(MatchRange { start: 1, end: u64::MAX }.len(), u64::MAX);
}

#[test]
fn read_files_are_known_by_their_names() {
    assert!(is_fastq_file("reads.fq"));
    assert!(is_fastq_file("reads.fastq"));
    assert!(is_fastq_file("sample_1.R1.fq"));
    assert!(is_fastq_file("readsfastq"));
    assert!(is_fastq_file(".fq"));
    assert!(!is_fastq_file("fq"));
    assert!(!is_fastq_file("reads.fasta"));
    assert!(!is_fastq_file("reads.fq.gz"));
    assert!(!is_fastq_file("reads.FQ"));
    assert!(!is_fastq_file(""));
}

#[test]
fn arguments_hand_out_what_they_hold() {
    let args = ProgramArgs {
        input_dir: "reads".to_string(),
        output_path: "out/graph.asg".to_string(),
        kmer_len: 10,
        temp_concat_fastq_path: "/tmp/tmp_concat.fastq".to_string(),
    };
    assert_eq!(args.input_dir(), "reads");
    assert_eq!(args.output_path(), "out/graph.asg");
    assert_eq!(args.kmer_len(), 10);
    assert_eq!(args.temp_concat_fastq_path(), "/tmp/tmp_concat.fastq");
}

#[test]
fn errors_say_what_went_wrong() {
    assert_eq!(
        GraphError::InvalidKmerLength.describe(),
        "the k-mer length must lie between 1 and 100"
    );
    assert_eq!(
        GraphError::InconsistentIndex.describe(),
        "the index cannot be searched for all k-mers"
    );
    assert_ne!(GraphError::InvalidKmerLength, GraphError::InconsistentIndex);
}

#[test]
fn string_without_rows_is_given_up() {
    assert_eq!(search_step(MatchRange { start: 1, end: 0 }, 9, 1, 3), SearchStep::Prune);
    assert_eq!(search_step(MatchRange { start: 5, end: 4 }, 9, 3, 3), SearchStep::Prune);
    assert_eq!(search_step(MatchRange { start: 20, end: 4 }, 9, 2, 3), SearchStep::Prune);
}

#[test]
fn range_outside_the_index_ends_the_search() {
    assert_eq!(search_step(MatchRange { start: 0, end: 3 }, 9, 1, 3), SearchStep::Inconsistent);
    assert_eq!(search_step(MatchRange { start: 2, end: 9 }, 9, 1, 3), SearchStep::Inconsistent);
    assert_eq!(search_step(MatchRange { start: 2, end: 50 }, 9, 3, 3), SearchStep::Inconsistent);
    assert_eq!(search_step(MatchRange { start: 0, end: 0 }, 9, 3, 3), SearchStep::Inconsistent);
}

#[test]
fn string_of_full_length_is_recorded_with_its_rows() {
    assert_eq!(search_step(MatchRange { start: 2, end: 3 }, 9, 3, 3), SearchStep::Record(2));
    assert_eq!(search_step(MatchRange { start: 8, end: 8 }, 9, 1, 1), SearchStep::Record(1));
    assert_eq!(search_step(MatchRange { start: 1, end: 8 }, 9, 100, 100), SearchStep::Record(8));
}

#[test]
fn shorter_string_is_searched_further() {
    assert_eq!(search_step(MatchRange { start: 2, end: 3 }, 9, 2, 3), SearchStep::Descend);
    assert_eq!(search_step(MatchRange { start: 1, end: 8 }, 9, 1, 100), SearchStep::Descend);
}

//! Builds the weighted overlap graph of a set of reads from a full-text index
//! over the reads: each string of `k` nucleotides that stands in the reads is
//! an edge from its first `k - 1` symbols to its last `k - 1` symbols, weighted
//! by the number of its occurrences. The graph is written as a text of one line
//! for each edge.

pub mod assembly_graph;
pub mod index;
pub mod kmers;
pub mod program_args;
pub mod read_files;
pub mod string_id_map;
pub mod text;
pub mod wg_file;

pub use assembly_graph::{AssemblyGraph, GraphError, SearchStep};
pub use index::MatchRange;
pub use program_args::ProgramArgs;
pub use read_files::is_fastq_file;
pub use string_id_map::StringIdMap;

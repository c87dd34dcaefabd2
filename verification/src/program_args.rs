use vstd::prelude::*;

verus! {

/// The settings of one run: where the reads are, where the graph goes, the
/// k-mer length, and where the concatenated reads are kept meanwhile.
pub struct ProgramArgs {
    pub input_dir: String,
    pub output_path: String,
    pub kmer_len: usize,
    pub temp_concat_fastq_path: String,
}

impl ProgramArgs {
    /// The directory that holds the read files.
    pub fn input_dir(&self) -> (r: &str)
        ensures
            r@ == self.input_dir@,
    {
        self.input_dir.as_str()
    }

    /// The path of the graph file to write.
    pub fn output_path(&self) -> (r: &str)
        ensures
            r@ == self.output_path@,
    {
        self.output_path.as_str()
    }

    /// The length of the k-mers.
    pub fn kmer_len(&self) -> (r: usize)
        ensures
            r == self.kmer_len,
    {
        self.kmer_len
    }

    /// The path of the file that holds all reads together.
    pub fn temp_concat_fastq_path(&self) -> (r: &str)
        ensures
            r@ == self.temp_concat_fastq_path@,
    {
        self.temp_concat_fastq_path.as_str()
    }
}

} // verus!

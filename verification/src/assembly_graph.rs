use awry::fm_index::FmIndex;
use vstd::hash_map::StringHashMap;
use vstd::prelude::*;
use vstd::string::*;

use crate::index::{
    index_rows, index_whole, initial_search_range, is_nucleotide, is_searchable, next_range,
    range_of, row_count, searchable, update_range_with_symbol, MatchRange,
};
use crate::text::ends_with;

verus! {

/// The longest k-mer that a graph is built for. The index is made to answer
/// patterns up to this length, and the search goes this deep at most.
pub const MAX_KMER_LEN: usize = 100;

/// Why no graph was built.
#[derive(Clone, Copy, Debug, PartialEq, Eq, Structural)]
pub enum GraphError {
    /// The k-mer length is zero or above `MAX_KMER_LEN`.
    InvalidKmerLength,
    /// The index cannot be searched for a nucleotide, or it gave a range that
    /// holds rows outside of it.
    InconsistentIndex,
}

impl GraphError {
    /// What the error says, in words.
    pub open spec fn description(self) -> Seq<char> {
        match self {
            GraphError::InvalidKmerLength => "the k-mer length must lie between 1 and 100"@,
            GraphError::InconsistentIndex => "the index cannot be searched for all k-mers"@,
        }
    }

    /// Says in words why no graph was built.
    pub fn describe(&self) -> (r: &'static str)
        ensures
            r@ == self.description(),
    {
        match self {
            GraphError::InvalidKmerLength => "the k-mer length must lie between 1 and 100",
            GraphError::InconsistentIndex => "the index cannot be searched for all k-mers",
        }
    }
}

/// What the search does with a string once the index gave its range.
#[derive(Clone, Copy, Debug, PartialEq, Eq, Structural)]
pub enum SearchStep {
    /// The string has no rows: nothing behind it is searched.
    Prune,
    /// The range holds rows outside of the index: the search ends.
    Inconsistent,
    /// The string is a k-mer: it is recorded with this count.
    Record(u64),
    /// The string is shorter than a k-mer: each symbol is tried in front of it.
    Descend,
}

/// What the search does with a string of `string_len` symbols whose range is
/// `range`, in an index of `rows` rows, when k-mers of `kmer_len` symbols are
/// looked for.
pub open spec fn step_of(range: MatchRange, rows: u64, string_len: nat, kmer_len: nat) -> SearchStep {
    if range.cardinality() == 0 {
        SearchStep::Prune
    } else if !range.within(rows) {
        SearchStep::Inconsistent
    } else if string_len == kmer_len {
        SearchStep::Record(range.cardinality() as u64)
    } else {
        SearchStep::Descend
    }
}

/// Decides what the search does with a string once the index gave its range:
/// a string without rows is given up, a range outside of the index ends the
/// search, a string of full length is recorded with the number of its rows,
/// and a shorter one is searched further.
pub fn search_step(range: MatchRange, rows: u64, string_len: usize, kmer_len: usize) -> (r:
    SearchStep)
    requires
        1 <= string_len <= kmer_len,
    ensures
        r == step_of(range, rows, string_len as nat, kmer_len as nat),
{
    if range.is_empty() {
        SearchStep::Prune
    } else if range.start < 1 || range.end >= rows {
        SearchStep::Inconsistent
    } else if string_len == kmer_len {
        SearchStep::Record(range.len())
    } else {
        SearchStep::Descend
    }
}

/// The four symbols, in the order in which the search tries them.
pub open spec fn alphabet() -> Seq<char> {
    seq!['A', 'G', 'C', 'T']
}

/// The place of a nucleotide in the alphabet.
pub open spec fn symbol_rank(symbol: char) -> int {
    if symbol == 'A' {
        0
    } else if symbol == 'G' {
        1
    } else if symbol == 'C' {
        2
    } else {
        3
    }
}

/// Whether a string is made of nucleotides only.
pub open spec fn nucleotides(s: Seq<char>) -> bool {
    forall|i: int| 0 <= i < s.len() ==> is_nucleotide(#[trigger] s[i])
}

/// Whether the index has rows for a string and for each of its ends. The
/// search comes to a string, from its last symbol on, exactly when this holds
/// of the string without its first symbol.
pub open spec fn live(index: FmIndex, s: Seq<char>) -> bool {
    forall|j: int| 0 <= j < s.len() ==> (#[trigger] range_of(index, s.skip(j))).cardinality() > 0
}

/// Whether a string is a k-mer that the search records.
pub open spec fn found(index: FmIndex, k: nat, s: Seq<char>) -> bool {
    s.len() == k && nucleotides(s) && live(index, s)
}

/// Whether the search comes to a string for which the index gave a range that
/// holds rows outside of the index.
pub open spec fn broken(index: FmIndex, k: nat, s: Seq<char>) -> bool {
    &&& 1 <= s.len() <= k
    &&& nucleotides(s)
    &&& live(index, s)
    &&& !range_of(index, s).within(index_rows(index))
}

/// Whether the index can be searched for all k-mers: it serves the four
/// nucleotides, and each range that the search meets lies inside it.
pub open spec fn sound_for(index: FmIndex, k: nat) -> bool {
    searchable(index) && forall|s: Seq<char>| !#[trigger] broken(index, k, s)
}

/// The number of rows that the index has for a string.
pub open spec fn count_in(index: FmIndex, s: Seq<char>) -> u64 {
    range_of(index, s).cardinality() as u64
}

/// The k-mers that end with `root`, each with its count.
pub open spec fn kmers_under(index: FmIndex, k: nat, root: Seq<char>) -> Map<Seq<char>, u64> {
    Map::new(|s: Seq<char>| found(index, k, s) && ends_with(s, root), |s: Seq<char>| count_in(index, s))
}

/// The k-mers that end with `root` behind one of the first `tried` symbols of
/// the alphabet, each with its count.
pub open spec fn kmers_before(index: FmIndex, k: nat, root: Seq<char>, tried: int) -> Map<
    Seq<char>,
    u64,
> {
    Map::new(
        |s: Seq<char>|
            found(index, k, s) && ends_with(s, root) && s.len() > root.len() && symbol_rank(
                s[s.len() - root.len() - 1],
            ) < tried,
        |s: Seq<char>| count_in(index, s),
    )
}

/// All k-mers that the index has rows for, each with the number of its rows.
pub open spec fn kmer_counts(index: FmIndex, k: nat) -> Map<Seq<char>, u64> {
    Map::new(|s: Seq<char>| found(index, k, s), |s: Seq<char>| count_in(index, s))
}

/// What building a graph gives: no graph for a k-mer length out of bounds or
/// an index that cannot be searched for all k-mers, else the counts of all
/// k-mers.
pub open spec fn graph_of(index: FmIndex, k: nat) -> Result<Map<Seq<char>, u64>, GraphError> {
    if k < 1 || k > MAX_KMER_LEN {
        Err(GraphError::InvalidKmerLength)
    } else if !sound_for(index, k) {
        Err(GraphError::InconsistentIndex)
    } else {
        Ok(kmer_counts(index, k))
    }
}

/// Whether a search that ended early left the counts `after` from the counts
/// `before`: each string that had a count has one still, and a count that is
/// new or changed is that of a k-mer of the index.
pub open spec fn grown_by_kmers(
    before: Map<Seq<char>, u64>,
    after: Map<Seq<char>, u64>,
    index: FmIndex,
    k: nat,
) -> bool {
    &&& forall|s: Seq<char>| #[trigger] before.contains_key(s) ==> after.contains_key(s)
    &&& forall|s: Seq<char>| #[trigger]
        after.contains_key(s) ==> (found(index, k, s) && after[s] == count_in(index, s)) || (
        before.contains_key(s) && after[s] == before[s])
}

/// Counts that grew by k-mers twice grew by k-mers.
proof fn lemma_grown_twice(
    before: Map<Seq<char>, u64>,
    between: Map<Seq<char>, u64>,
    after: Map<Seq<char>, u64>,
    index: FmIndex,
    k: nat,
)
    requires
        grown_by_kmers(before, between, index, k),
        grown_by_kmers(between, after, index, k),
    ensures
        grown_by_kmers(before, after, index, k),
{
    assert forall|s: Seq<char>| #[trigger] before.contains_key(s) implies after.contains_key(s) by {
        assert(between.contains_key(s));
    }
    assert forall|s: Seq<char>| #[trigger] after.contains_key(s) implies (found(index, k, s)
        && after[s] == count_in(index, s)) || (before.contains_key(s) && after[s] == before[s]) by {
        if !(found(index, k, s) && after[s] == count_in(index, s)) {
            assert(between.contains_key(s));
        }
    }
}

/// A string ends with a symbol and `root` exactly when it ends with `root`
/// and the symbol stands before that end.
proof fn lemma_ends_with_child(s: Seq<char>, root: Seq<char>, symbol: char)
    ensures
        ends_with(s, seq![symbol] + root) <==> (ends_with(s, root) && s.len() > root.len() && s[s.len()
            - root.len() - 1] == symbol),
{
    let child = seq![symbol] + root;
    let from = s.len() - root.len();
    if ends_with(s, child) {
        let tail = s.subrange(from - 1, s.len() as int);
        assert(tail[0] == child[0]);
        assert(s.subrange(from, s.len() as int) =~= root) by {
            assert forall|i: int| 0 <= i < root.len() implies s.subrange(from, s.len() as int)[i]
                == root[i] by {
                assert(tail[i + 1] == child[i + 1]);
            }
        }
    }
    if ends_with(s, root) && s.len() > root.len() && s[from - 1] == symbol {
        assert(s.subrange(from - 1, s.len() as int) =~= child) by {
            assert forall|i: int| 0 <= i < child.len() implies s.subrange(
                from - 1,
                s.len() as int,
            )[i] == child[i] by {
                if i > 0 {
                    assert(s.subrange(from, s.len() as int)[i - 1] == root[i - 1]);
                }
            }
        }
    }
}

/// A string that ends with `root` and is no longer is `root`.
proof fn lemma_ends_with_same_len(s: Seq<char>, root: Seq<char>)
    requires
        ends_with(s, root),
        s.len() <= root.len(),
    ensures
        s == root,
{
    assert(s.subrange(0, s.len() as int) =~= s);
}

/// The search does not come to a string behind a string without rows.
proof fn lemma_dead_end(index: FmIndex, root: Seq<char>, s: Seq<char>)
    requires
        root.len() >= 1,
        range_of(index, root).cardinality() == 0,
        ends_with(s, root),
    ensures
        !live(index, s),
{
    let j = s.len() - root.len();
    assert(s.skip(j) =~= s.subrange(j, s.len() as int));
    if live(index, s) {
        assert(range_of(index, s.skip(j)).cardinality() > 0);
    }
}

/// What holds of a string with one more symbol in front: one search step
/// leads to its range, and the search comes to it when it came to the string
/// and found rows for it.
proof fn lemma_child(index: FmIndex, root: Seq<char>, symbol: char)
    requires
        root.len() >= 1,
        nucleotides(root),
        is_nucleotide(symbol),
        range_of(index, root).cardinality() > 0,
        forall|j: int|
            1 <= j < root.len() ==> (#[trigger] range_of(index, root.skip(j))).cardinality() > 0,
    ensures
        nucleotides(seq![symbol] + root),
        range_of(index, seq![symbol] + root) == next_range(index, range_of(index, root), symbol),
        forall|j: int|
            1 <= j < root.len() + 1 ==> (#[trigger] range_of(
                index,
                (seq![symbol] + root).skip(j),
            )).cardinality() > 0,
{
    let child = seq![symbol] + root;
    assert(child.drop_first() =~= root);
    assert forall|j: int| 1 <= j < root.len() + 1 implies (#[trigger] range_of(
        index,
        child.skip(j),
    )).cardinality() > 0 by {
        assert(child.skip(j) =~= root.skip(j - 1));
        if j == 1 {
            assert(root.skip(0) =~= root);
        }
    }
}

/// The search comes to a string when it came to all of its shorter ends and
/// the string has rows.
proof fn lemma_live(index: FmIndex, root: Seq<char>)
    requires
        range_of(index, root).cardinality() > 0,
        forall|j: int|
            1 <= j < root.len() ==> (#[trigger] range_of(index, root.skip(j))).cardinality() > 0,
    ensures
        live(index, root),
{
    assert(root.skip(0) =~= root);
}

/// The edges of an assembly graph: each k-mer that was found, with the number
/// of its occurrences. A k-mer is an edge from its first k-1 symbols to its
/// last k-1 symbols. The edges are kept in the order in which their k-mers
/// came in, so that they can be walked one by one, beside a hash map that
/// tells the place of each k-mer.
pub struct AssemblyGraph {
    graph_edges: Vec<(String, u64)>,
    slots: StringHashMap<usize>,
}

impl View for AssemblyGraph {
    type V = Map<Seq<char>, u64>;

    /// The count of each k-mer.
    closed spec fn view(&self) -> Map<Seq<char>, u64> {
        Map::new(
            |kmer: Seq<char>| self.slots@.contains_key(kmer),
            |kmer: Seq<char>| self.graph_edges@[self.slots@[kmer] as int].1,
        )
    }
}

impl AssemblyGraph {
    /// The edges in the order in which their k-mers first came in.
    pub closed spec fn edges(&self) -> Seq<(Seq<char>, u64)> {
        Seq::new(
            self.graph_edges@.len(),
            |i: int| (self.graph_edges@[i].0@, self.graph_edges@[i].1),
        )
    }

    /// The invariant: each k-mer has one edge, and is found at its place.
    pub closed spec fn wf(&self) -> bool {
        &&& forall|kmer: Seq<char>| #[trigger]
            self.slots@.contains_key(kmer) ==> self.slots@[kmer] < self.graph_edges@.len()
                && self.graph_edges@[self.slots@[kmer] as int].0@ == kmer
        &&& forall|i: int|
            0 <= i < self.graph_edges@.len() ==> self.slots@.contains_key(
                #[trigger] self.graph_edges@[i].0@,
            ) && self.slots@[self.graph_edges@[i].0@] == i
    }

    /// How the edges and the counts belong together: no k-mer has two edges,
    /// each edge holds the count of its k-mer, and each k-mer has an edge.
    pub proof fn lemma_edges(&self)
        requires
            self.wf(),
        ensures
            forall|i: int, j: int|
                0 <= i < j < self.edges().len() ==> self.edges()[i].0 != self.edges()[j].0,
            forall|i: int|
                0 <= i < self.edges().len() ==> self@.contains_key(#[trigger] self.edges()[i].0)
                    && self@[self.edges()[i].0] == self.edges()[i].1,
            forall|kmer: Seq<char>| #[trigger]
                self@.contains_key(kmer) ==> exists|i: int|
                    0 <= i < self.edges().len() && self.edges()[i].0 == kmer,
    {
        assert forall|i: int, j: int| 0 <= i < j < self.edges().len() implies self.edges()[i].0
            != self.edges()[j].0 by {
            assert(self.slots@[self.graph_edges@[i].0@] == i);
            assert(self.slots@[self.graph_edges@[j].0@] == j);
        }
        assert forall|i: int| 0 <= i < self.edges().len() implies self@.contains_key(
            #[trigger] self.edges()[i].0,
        ) && self@[self.edges()[i].0] == self.edges()[i].1 by {
            assert(self.slots@[self.graph_edges@[i].0@] == i);
        }
        assert forall|kmer: Seq<char>| #[trigger] self@.contains_key(kmer) implies exists|i: int|
            0 <= i < self.edges().len() && self.edges()[i].0 == kmer by {
            let i = self.slots@[kmer] as int;
            assert(self.edges()[i].0 == kmer);
        }
    }

    /// A graph without edges.
    pub fn empty() -> (r: Self)
        ensures
            r.wf(),
            r@ == Map::<Seq<char>, u64>::empty(),
            r.edges() == Seq::<(Seq<char>, u64)>::empty(),
    {
        let r = Self { graph_edges: Vec::new(), slots: StringHashMap::new() };
        assert(r@ =~= Map::<Seq<char>, u64>::empty());
        assert(r.edges() =~= Seq::<(Seq<char>, u64)>::empty());
        r
    }

    /// The number of edges.
    pub fn edge_count(&self) -> (r: usize)
        ensures
            r == self.edges().len(),
    {
        self.graph_edges.len()
    }

    /// The edge at a place: its k-mer and its count.
    pub fn edge(&self, i: usize) -> (r: (&String, u64))
        requires
            i < self.edges().len(),
        ensures
            r.0@ == self.edges()[i as int].0,
            r.1 == self.edges()[i as int].1,
    {
        (&self.graph_edges[i].0, self.graph_edges[i].1)
    }

    /// In a graph that holds the k-mers of an index and nothing else, each
    /// edge is a string of `k` nucleotides.
    pub proof fn lemma_edges_are_kmers(&self, index: FmIndex, k: nat)
        requires
            self.wf(),
            self@ == kmer_counts(index, k),
        ensures
            forall|i: int|
                0 <= i < self.edges().len() ==> (#[trigger] self.edges()[i]).0.len() == k
                    && nucleotides(self.edges()[i].0),
    {
        self.lemma_edges();
        assert forall|i: int| 0 <= i < self.edges().len() implies (#[trigger] self.edges()[i]).0.len()
            == k && nucleotides(self.edges()[i].0) by {
            assert(self@.contains_key(self.edges()[i].0));
        }
    }

    /// The count of a k-mer, if it has an edge.
    pub fn count_of(&self, kmer: &str) -> (r: Option<u64>)
        requires
            self.wf(),
        ensures
            r == (if self@.contains_key(kmer@) {
                Some(self@[kmer@])
            } else {
                None
            }),
    {
        match self.slots.get(kmer) {
            Some(slot) => Some(self.graph_edges[*slot].1),
            None => None,
        }
    }

    /// Sets the count of a k-mer. A k-mer that has an edge keeps it, and the
    /// count it had is gone; a new k-mer gets an edge after all others.
    pub fn add_edge(&mut self, string: String, count: u64)
        requires
            old(self).wf(),
        ensures
            final(self).wf(),
            final(self)@ == old(self)@.insert(string@, count),
            !old(self)@.contains_key(string@) ==> final(self).edges() == old(self).edges().push(
                (string@, count),
            ),
            old(self)@.contains_key(string@) ==> final(self).edges().len() == old(
                self,
            ).edges().len() && forall|i: int|
                0 <= i < old(self).edges().len() ==> #[trigger] final(self).edges()[i] == (if old(
                    self,
                ).edges()[i].0 == string@ {
                    (string@, count)
                } else {
                    old(self).edges()[i]
                }),
    {
        let known: Option<usize> = match self.slots.get(string.as_str()) {
            Some(slot) => Some(*slot),
            None => None,
        };
        match known {
            Some(slot) => {
                self.graph_edges.set(slot, (string, count));
                proof {
                    assert forall|i: int| 0 <= i < self.graph_edges@.len() implies (
                    #[trigger] self.graph_edges@[i].0@) == old(self).graph_edges@[i].0@ by {}
                    assert(final(self)@ =~= old(self)@.insert(string@, count));
                    assert forall|i: int| 0 <= i < old(self).edges().len() implies #[trigger] self.edges()[i]
                        == (if old(self).edges()[i].0 == string@ {
                        (string@, count)
                    } else {
                        old(self).edges()[i]
                    }) by {
                        assert(old(self).slots@[old(self).graph_edges@[i].0@] == i);
                    }
                }
            },
            None => {
                let slot: usize = self.graph_edges.len();
                self.slots.insert(string.clone(), slot);
                self.graph_edges.push((string, count));
                proof {
                    assert(final(self)@ =~= old(self)@.insert(string@, count));
                    assert(final(self).edges() =~= old(self).edges().push((string@, count)));
                }
            },
        }
    }
}

impl AssemblyGraph {
    /// Builds the graph of all k-mers of length `kmer_len` that the index has
    /// rows for. Each k-mer is counted by the number of its rows. No graph is
    /// built for a length of zero or above `MAX_KMER_LEN`, nor from an index
    /// that cannot be searched for all k-mers. The index must be whole, as one
    /// is that was built from a text.
    pub fn new(fm_index: &FmIndex, kmer_len: usize) -> (r: Result<Self, GraphError>)
        requires
            index_whole(*fm_index),
        ensures
            match r {
                Ok(graph) => graph.wf() && graph_of(*fm_index, kmer_len as nat) == Ok::<
                    Map<Seq<char>, u64>,
                    GraphError,
                >(graph@),
                Err(e) => graph_of(*fm_index, kmer_len as nat) == Err::<
                    Map<Seq<char>, u64>,
                    GraphError,
                >(e),
            },
    {
        if kmer_len < 1 || kmer_len > MAX_KMER_LEN {
            return Err(GraphError::InvalidKmerLength);
        }
        let mut assembly_graph = Self::empty();
        match Self::create_edges(&mut assembly_graph, fm_index, kmer_len) {
            Ok(()) => {
                assert(assembly_graph@ =~= kmer_counts(*fm_index, kmer_len as nat));
                Ok(assembly_graph)
            },
            Err(e) => Err(e),
        }
    }

    /// Searches the index for the k-mers that end with each of the four
    /// symbols and sets their counts in the graph. Where the index cannot be
    /// searched for all k-mers, the search ends with an error, and the graph
    /// may hold some of the k-mers.
    pub fn create_edges(
        assembly_graph: &mut AssemblyGraph,
        fm_index: &FmIndex,
        kmer_len: usize,
    ) -> (r: Result<(), GraphError>)
        requires
            old(assembly_graph).wf(),
            1 <= kmer_len <= MAX_KMER_LEN,
            index_whole(*fm_index),
        ensures
            final(assembly_graph).wf(),
            match r {
                Ok(()) => {
                    &&& sound_for(*fm_index, kmer_len as nat)
                    &&& final(assembly_graph)@ == old(assembly_graph)@.union_prefer_right(
                        kmer_counts(*fm_index, kmer_len as nat),
                    )
                    &&& old(assembly_graph)@ == Map::<Seq<char>, u64>::empty()
                        ==> final(assembly_graph)@ == kmer_counts(*fm_index, kmer_len as nat)
                },
                Err(e) => e == GraphError::InconsistentIndex && !sound_for(
                    *fm_index,
                    kmer_len as nat,
                ) && grown_by_kmers(
                    old(assembly_graph)@,
                    final(assembly_graph)@,
                    *fm_index,
                    kmer_len as nat,
                ),
            },
    {
        if !is_searchable(fm_index) {
            return Err(GraphError::InconsistentIndex);
        }
        let rows: u64 = row_count(fm_index);
        let ghost k = kmer_len as nat;
        let ghost before = assembly_graph@;
        let ghost root = Seq::<char>::empty();
        assert(before.union_prefer_right(kmers_before(*fm_index, k, root, 0)) =~= before);
        let mut i: usize = 0;
        while i < 4
            invariant
                i <= 4,
                assembly_graph.wf(),
                before == old(assembly_graph)@,
                searchable(*fm_index),
                index_whole(*fm_index),
                rows == index_rows(*fm_index),
                1 <= kmer_len <= MAX_KMER_LEN,
                k == kmer_len as nat,
                root == Seq::<char>::empty(),
                assembly_graph@ == before.union_prefer_right(
                    kmers_before(*fm_index, k, root, i as int),
                ),
                forall|s: Seq<char>|
                    s.len() > 0 && symbol_rank(s[s.len() - 1]) < i ==> !#[trigger] broken(
                        *fm_index,
                        k,
                        s,
                    ),
            decreases 4 - i,
        {
            let symbol: char = symbol_at(i);
            let current_string: String = String::from_str(symbol_str(i));
            let search_range: MatchRange = initial_search_range(fm_index, symbol);
            let ghost child = seq![symbol] + root;
            let ghost reached = assembly_graph@;
            proof {
                assert(child =~= current_string@);
                assert(search_range == range_of(*fm_index, child));
            }
            match Self::create_edges_recursive(
                assembly_graph,
                fm_index,
                rows,
                kmer_len,
                current_string,
                search_range,
            ) {
                Err(e) => {
                    proof {
                        let s = choose|s: Seq<char>|
                            ends_with(s, child) && #[trigger] broken(*fm_index, k, s);
                        assert(broken(*fm_index, k, s));
                        assert(grown_by_kmers(before, reached, *fm_index, k));
                        lemma_grown_twice(before, reached, assembly_graph@, *fm_index, k);
                    }
                    return Err(e);
                },
                Ok(()) => {},
            }
            proof {
                assert forall|s: Seq<char>|
                    s.len() > 0 && symbol_rank(s[s.len() - 1]) < i + 1 implies !#[trigger] broken(
                    *fm_index,
                    k,
                    s,
                ) by {
                    lemma_ends_with_child(s, root, symbol);
                    assert(s.subrange(s.len() as int, s.len() as int) =~= root);
                }
                assert(assembly_graph@ =~= before.union_prefer_right(
                    kmers_before(*fm_index, k, root, i + 1),
                )) by {
                    assert forall|s: Seq<char>|
                        kmers_before(*fm_index, k, root, i + 1).contains_key(s) <==> (kmers_before(
                            *fm_index,
                            k,
                            root,
                            i as int,
                        ).contains_key(s) || kmers_under(*fm_index, k, child).contains_key(
                            s,
                        )) by {
                        lemma_ends_with_child(s, root, symbol);
                        assert(s.subrange(s.len() as int, s.len() as int) =~= root);
                    }
                }
            }
            i += 1;
        }
        proof {
            if before == Map::<Seq<char>, u64>::empty() {
                assert(before.union_prefer_right(kmer_counts(*fm_index, k)) =~= kmer_counts(
                    *fm_index,
                    k,
                ));
            }
            assert forall|s: Seq<char>| !#[trigger] broken(*fm_index, k, s) by {}
            assert(kmers_before(*fm_index, k, root, 4) =~= kmer_counts(*fm_index, k)) by {
                assert forall|s: Seq<char>|
                    kmers_before(*fm_index, k, root, 4).contains_key(s) <==> kmer_counts(
                        *fm_index,
                        k,
                    ).contains_key(s) by {
                    assert(s.subrange(s.len() as int, s.len() as int) =~= root);
                }
            }
        }
        Ok(())
    }

    /// Takes the search on from one string, which the index has the rows
    /// `search_range` for: records it when it is a k-mer, else tries each of
    /// the four symbols in front of it. A string without rows ends the search
    /// on this branch.
    fn create_edges_recursive(
        assembly_graph: &mut AssemblyGraph,
        fm_index: &FmIndex,
        rows: u64,
        kmer_len: usize,
        string: String,
        search_range: MatchRange,
    ) -> (r: Result<(), GraphError>)
        requires
            old(assembly_graph).wf(),
            searchable(*fm_index),
            index_whole(*fm_index),
            rows == index_rows(*fm_index),
            1 <= string@.len() <= kmer_len <= MAX_KMER_LEN,
            nucleotides(string@),
            search_range == range_of(*fm_index, string@),
            forall|j: int|
                1 <= j < string@.len() ==> (#[trigger] range_of(
                    *fm_index,
                    string@.skip(j),
                )).cardinality() > 0,
        ensures
            final(assembly_graph).wf(),
            match r {
                Ok(()) => {
                    &&& final(assembly_graph)@ == old(assembly_graph)@.union_prefer_right(
                        kmers_under(*fm_index, kmer_len as nat, string@),
                    )
                    &&& forall|s: Seq<char>|
                        ends_with(s, string@) ==> !#[trigger] broken(*fm_index, kmer_len as nat, s)
                },
                Err(e) => {
                    &&& e == GraphError::InconsistentIndex
                    &&& exists|s: Seq<char>|
                        ends_with(s, string@) && #[trigger] broken(*fm_index, kmer_len as nat, s)
                    &&& grown_by_kmers(
                        old(assembly_graph)@,
                        final(assembly_graph)@,
                        *fm_index,
                        kmer_len as nat,
                    )
                },
            },
        decreases kmer_len - string@.len(),
    {
        let ghost k = kmer_len as nat;
        let ghost before = assembly_graph@;
        let ghost root = string@;
        let string_len: usize = string.as_str().unicode_len();
        match search_step(search_range, rows, string_len, kmer_len) {
            SearchStep::Prune => {
                proof {
                    assert forall|s: Seq<char>| ends_with(s, root) implies !live(*fm_index, s) by {
                        lemma_dead_end(*fm_index, root, s);
                    }
                    assert(before.union_prefer_right(kmers_under(*fm_index, k, root)) =~= before);
                }
                return Ok(());
            },
            SearchStep::Inconsistent => {
                proof {
                    lemma_live(*fm_index, root);
                    assert(root.subrange(0, root.len() as int) =~= root);
                    assert(ends_with(root, root));
                    assert(broken(*fm_index, k, root));
                }
                return Err(GraphError::InconsistentIndex);
            },
            SearchStep::Record(count) => {
                assembly_graph.add_edge(string, count);
                proof {
                    lemma_live(*fm_index, root);
                    assert(root.subrange(0, root.len() as int) =~= root);
                    assert forall|s: Seq<char>| ends_with(s, root) implies !#[trigger] broken(
                        *fm_index,
                        k,
                        s,
                    ) by {
                        if broken(*fm_index, k, s) {
                            lemma_ends_with_same_len(s, root);
                        }
                    }
                    assert(before.insert(root, count) =~= before.union_prefer_right(
                        kmers_under(*fm_index, k, root),
                    )) by {
                        assert forall|s: Seq<char>|
                            kmers_under(*fm_index, k, root).contains_key(s) <==> s == root by {
                            if found(*fm_index, k, s) && ends_with(s, root) {
                                lemma_ends_with_same_len(s, root);
                            }
                        }
                    }
                }
                return Ok(());
            },
            SearchStep::Descend => {},
        }
        proof {
            lemma_live(*fm_index, root);
        }
        assert(before.union_prefer_right(kmers_before(*fm_index, k, root, 0)) =~= before);
        let mut i: usize = 0;
        while i < 4
            invariant
                i <= 4,
                assembly_graph.wf(),
                before == old(assembly_graph)@,
                searchable(*fm_index),
                index_whole(*fm_index),
                rows == index_rows(*fm_index),
                1 <= root.len() < kmer_len <= MAX_KMER_LEN,
                k == kmer_len as nat,
                root == string@,
                nucleotides(root),
                search_range == range_of(*fm_index, root),
                search_range.cardinality() > 0,
                search_range.within(rows),
                forall|j: int|
                    1 <= j < root.len() ==> (#[trigger] range_of(
                        *fm_index,
                        root.skip(j),
                    )).cardinality() > 0,
                assembly_graph@ == before.union_prefer_right(
                    kmers_before(*fm_index, k, root, i as int),
                ),
                forall|s: Seq<char>|
                    ends_with(s, root) && s.len() > root.len() && symbol_rank(
                        s[s.len() - root.len() - 1],
                    ) < i ==> !#[trigger] broken(*fm_index, k, s),
            decreases 4 - i,
        {
            let symbol: char = symbol_at(i);
            let next_string: String = String::from_str(symbol_str(i)).concat(string.as_str());
            let next_range: MatchRange = update_range_with_symbol(fm_index, search_range, symbol);
            let ghost child = seq![symbol] + root;
            let ghost reached = assembly_graph@;
            proof {
                lemma_child(*fm_index, root, symbol);
                assert(child =~= next_string@);
            }
            match Self::create_edges_recursive(
                assembly_graph,
                fm_index,
                rows,
                kmer_len,
                next_string,
                next_range,
            ) {
                Err(e) => {
                    proof {
                        let s = choose|s: Seq<char>|
                            ends_with(s, child) && #[trigger] broken(*fm_index, k, s);
                        lemma_ends_with_child(s, root, symbol);
                        assert(ends_with(s, root) && broken(*fm_index, k, s));
                        assert(grown_by_kmers(before, reached, *fm_index, k));
                        lemma_grown_twice(before, reached, assembly_graph@, *fm_index, k);
                    }
                    return Err(e);
                },
                Ok(()) => {},
            }
            proof {
                assert forall|s: Seq<char>|
                    ends_with(s, root) && s.len() > root.len() && symbol_rank(
                        s[s.len() - root.len() - 1],
                    ) < i + 1 implies !#[trigger] broken(*fm_index, k, s) by {
                    lemma_ends_with_child(s, root, symbol);
                }
                assert(assembly_graph@ =~= before.union_prefer_right(
                    kmers_before(*fm_index, k, root, i + 1),
                )) by {
                    assert forall|s: Seq<char>|
                        kmers_before(*fm_index, k, root, i + 1).contains_key(s) <==> (kmers_before(
                            *fm_index,
                            k,
                            root,
                            i as int,
                        ).contains_key(s) || kmers_under(*fm_index, k, child).contains_key(
                            s,
                        )) by {
                        lemma_ends_with_child(s, root, symbol);
                    }
                }
            }
            i += 1;
        }
        proof {
            assert forall|s: Seq<char>| ends_with(s, root) implies !#[trigger] broken(
                *fm_index,
                k,
                s,
            ) by {
                if s.len() <= root.len() {
                    lemma_ends_with_same_len(s, root);
                }
            }
            assert(kmers_before(*fm_index, k, root, 4) =~= kmers_under(*fm_index, k, root));
        }
        Ok(())
    }
}

/// The symbol at a place of the alphabet.
fn symbol_at(i: usize) -> (r: char)
    requires
        i < 4,
    ensures
        r == alphabet()[i as int],
        is_nucleotide(r),
        symbol_rank(r) == i,
{
    if i == 0 {
        'A'
    } else if i == 1 {
        'G'
    } else if i == 2 {
        'C'
    } else {
        'T'
    }
}

/// The symbol at a place of the alphabet, as a string of one character.
fn symbol_str(i: usize) -> (r: &'static str)
    requires
        i < 4,
    ensures
        r@ == seq![alphabet()[i as int]],
{
    proof {
        reveal_strlit("A");
        reveal_strlit("G");
        reveal_strlit("C");
        reveal_strlit("T");
    }
    let r = if i == 0 {
        "A"
    } else if i == 1 {
        "G"
    } else if i == 2 {
        "C"
    } else {
        "T"
    };
    assert(r@ =~= seq![alphabet()[i as int]]);
    r
}

} // verus!

use awry::fm_index::FmIndex;
use vstd::prelude::*;

use crate::assembly_graph::{
    broken, found, graph_of, kmer_counts, live, nucleotides, sound_for, GraphError, MAX_KMER_LEN,
};
use crate::index::{index_rows, range_of, searchable};
use crate::text::{
    lemma_occurrences_positive, lemma_suffix_occurs, occurrences, occurs_at, positions_of,
};

verus! {

/// The k-mers of a text: each string of `k` nucleotides that stands in the
/// text, with the number of its occurrences.
pub open spec fn text_kmers(text: Seq<char>, k: nat) -> Map<Seq<char>, u64> {
    Map::new(
        |s: Seq<char>| s.len() == k && nucleotides(s) && occurrences(text, s) > 0,
        |s: Seq<char>| occurrences(text, s) as u64,
    )
}

/// Whether an index answers for a text, for patterns of up to `k` nucleotides:
/// it can be searched for the four nucleotides, it has as many rows for a
/// pattern as the pattern has occurrences in the text, and a range that holds
/// a row lies inside the index.
pub open spec fn answers_for(index: FmIndex, text: Seq<char>, k: nat) -> bool {
    &&& searchable(index)
    &&& forall|s: Seq<char>|
        1 <= s.len() <= k && nucleotides(s) ==> {
            &&& (#[trigger] range_of(index, s)).cardinality() == occurrences(text, s)
            &&& (range_of(index, s).cardinality() > 0 ==> range_of(index, s).within(
                index_rows(index),
            ))
        }
}

/// A pattern stands in a text at most as often as each of its ends: the number
/// of occurrences does not grow when symbols are put in front.
pub proof fn lemma_occurrences_shrink(text: Seq<char>, pattern: Seq<char>, skipped: int)
    requires
        0 <= skipped <= pattern.len(),
    ensures
        occurrences(text, pattern) <= occurrences(text, pattern.skip(skipped)),
{
    let whole = positions_of(text, pattern);
    let rest = positions_of(text, pattern.skip(skipped));
    let shift = |at: int| at + skipped;
    lemma_occurrences_positive(text, pattern);
    lemma_occurrences_positive(text, pattern.skip(skipped));
    assert(whole.map(shift).subset_of(rest)) by {
        assert forall|to: int| whole.map(shift).contains(to) implies rest.contains(to) by {
            let at = choose|at: int| whole.contains(at) && to == shift(at);
            lemma_suffix_occurs(text, pattern, at, skipped);
        }
    }
    assert(vstd::relations::injective_on(shift, whole));
    vstd::set_lib::lemma_map_size(whole, whole.map(shift), shift);
    vstd::set_lib::lemma_len_subset(whole.map(shift), rest);
}

/// An index that answers for a text has no more rows for a pattern than for
/// each of its ends: a search step never makes a range larger, so a range
/// without rows stays without rows whatever is put in front.
pub proof fn lemma_rows_shrink(
    index: FmIndex,
    text: Seq<char>,
    k: nat,
    pattern: Seq<char>,
    skipped: int,
)
    requires
        answers_for(index, text, k),
        1 <= pattern.len() <= k,
        nucleotides(pattern),
        0 <= skipped < pattern.len(),
    ensures
        range_of(index, pattern).cardinality() <= range_of(
            index,
            pattern.skip(skipped),
        ).cardinality(),
{
    lemma_occurrences_shrink(text, pattern, skipped);
    assert(nucleotides(pattern.skip(skipped)));
}

/// The search leaves out no k-mer that stands in the text: with an index that
/// answers for the text, it comes to a string of nucleotides and records it
/// exactly when the string stands in the text. A branch that it gives up holds
/// no such string.
pub proof fn lemma_no_kmer_left_out(index: FmIndex, text: Seq<char>, k: nat, s: Seq<char>)
    requires
        answers_for(index, text, k),
        1 <= s.len() <= k,
        nucleotides(s),
    ensures
        live(index, s) <==> occurrences(text, s) > 0,
{
    assert(s.skip(0) =~= s);
    if occurrences(text, s) > 0 {
        assert forall|j: int| 0 <= j < s.len() implies (#[trigger] range_of(
            index,
            s.skip(j),
        )).cardinality() > 0 by {
            lemma_occurrences_shrink(text, s, j);
            assert(nucleotides(s.skip(j)));
        }
    }
    if live(index, s) {
        assert(range_of(index, s.skip(0)).cardinality() > 0);
    }
}

/// An index that answers for a text gives the graph of the text: the graph is
/// built, a string of `k` nucleotides is a k-mer of the graph exactly when it
/// stands in the text, and its count is the number of its occurrences,
/// overlapping ones included.
pub proof fn lemma_graph_of_text(index: FmIndex, text: Seq<char>, k: nat)
    requires
        1 <= k <= MAX_KMER_LEN,
        answers_for(index, text, k),
    ensures
        sound_for(index, k),
        kmer_counts(index, k) == text_kmers(text, k),
        graph_of(index, k) == Ok::<Map<Seq<char>, u64>, GraphError>(text_kmers(text, k)),
        forall|s: Seq<char>|
            s.len() == k && nucleotides(s) ==> (kmer_counts(index, k).contains_key(s)
                <==> exists|at: int| occurs_at(text, s, at)),
        forall|s: Seq<char>| #[trigger]
            kmer_counts(index, k).contains_key(s) ==> kmer_counts(index, k)[s] == occurrences(
                text,
                s,
            ),
{
    assert forall|s: Seq<char>| !#[trigger] broken(index, k, s) by {
        if broken(index, k, s) {
            assert(s.skip(0) =~= s);
            assert(range_of(index, s.skip(0)).cardinality() > 0);
        }
    }
    assert forall|s: Seq<char>| s.len() == k && nucleotides(s) implies (found(index, k, s)
        <==> occurrences(text, s) > 0) by {
        lemma_no_kmer_left_out(index, text, k, s);
    }
    assert forall|s: Seq<char>| #[trigger]
        kmer_counts(index, k).contains_key(s) implies kmer_counts(index, k)[s] == occurrences(
        text,
        s,
    ) by {
        assert(s.skip(0) =~= s);
        assert(range_of(index, s.skip(0)).cardinality() > 0);
    }
    assert(kmer_counts(index, k) =~= text_kmers(text, k));
    assert forall|s: Seq<char>| s.len() == k && nucleotides(s) implies (kmer_counts(
        index,
        k,
    ).contains_key(s) <==> exists|at: int| occurs_at(text, s, at)) by {
        lemma_occurrences_positive(text, s);
    }
}

/// A text holds no k-mer that is longer than the text: with an index that
/// answers for the text, the graph for such a length is built and has no edge.
pub proof fn lemma_long_kmers_give_empty_graph(index: FmIndex, text: Seq<char>, k: nat)
    requires
        1 <= k <= MAX_KMER_LEN,
        answers_for(index, text, k),
        k > text.len(),
    ensures
        kmer_counts(index, k) == Map::<Seq<char>, u64>::empty(),
        graph_of(index, k) == Ok::<Map<Seq<char>, u64>, GraphError>(
            Map::<Seq<char>, u64>::empty(),
        ),
{
    lemma_graph_of_text(index, text, k);
    assert forall|s: Seq<char>| !text_kmers(text, k).contains_key(s) by {
        lemma_occurrences_positive(text, s);
    }
    assert(text_kmers(text, k) =~= Map::<Seq<char>, u64>::empty());
}

/// The empty text holds no k-mer: with an index that answers for it, the
/// graph for each length from 1 on is built and has no edge.
pub proof fn lemma_empty_text_gives_empty_graph(index: FmIndex, k: nat)
    requires
        1 <= k <= MAX_KMER_LEN,
        answers_for(index, Seq::<char>::empty(), k),
    ensures
        kmer_counts(index, k) == Map::<Seq<char>, u64>::empty(),
        graph_of(index, k) == Ok::<Map<Seq<char>, u64>, GraphError>(
            Map::<Seq<char>, u64>::empty(),
        ),
{
    lemma_long_kmers_give_empty_graph(index, Seq::<char>::empty(), k);
}

} // verus!

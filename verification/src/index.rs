use awry::alphabet::{Symbol, SymbolAlphabet};
use awry::fm_index::FmIndex;
use awry::search::SearchRange;
use vstd::prelude::*;

verus! {

/// The full-text index of the `awry` crate. Nothing inside it is visible here:
/// it is carried through to the calls that search it.
#[verifier::external_type_specification]
#[verifier::external_body]
pub struct ExFmIndex(awry::fm_index::FmIndex);

/// The number of rows that an index was built with: what `FmIndex::bwt_len`
/// hands out.
pub uninterp spec fn index_rows(index: FmIndex) -> u64;

/// The prefix sums that an index holds, one for each slot of a symbol and one
/// more: what `FmIndex::prefix_sums` refers to. In an index that was built
/// from a text, the sum at a slot counts the rows whose symbol has a lower slot.
pub uninterp spec fn index_prefix_sums(index: FmIndex) -> Seq<u64>;

/// The search steps of an index: the two ends of the range that
/// `FmIndex::update_range_with_symbol` gives for a range, taken by its two
/// ends, and a nucleotide.
pub uninterp spec fn index_steps(index: FmIndex) -> Map<(u64, u64, char), (u64, u64)>;

/// Whether an index is whole: it has as many blocks as its rows need, and its
/// milestones and prefix sums are small enough for a prefix sum and a count of
/// rows to add up within 64 bits. `FmIndex::new` builds such an index from a
/// text; `FmIndex::load` takes the numbers from the file as they come.
pub uninterp spec fn index_whole(index: FmIndex) -> bool;

/// An inclusive range of rows of an index: the rows whose text starts with one
/// pattern. It is empty when `start` lies above `end`.
#[derive(Clone, Copy, Debug, PartialEq, Eq, Structural)]
pub struct MatchRange {
    pub start: u64,
    pub end: u64,
}

impl MatchRange {
    /// The number of rows in the range.
    pub open spec fn cardinality(self) -> nat {
        if self.start > self.end {
            0
        } else {
            (self.end - self.start + 1) as nat
        }
    }

    /// Whether a range that holds a row lies inside an index of `rows` rows and
    /// off its first row, so that the index can search it further.
    pub open spec fn within(self, rows: u64) -> bool {
        1 <= self.start && self.end < rows
    }

    /// Whether the range holds no row.
    pub fn is_empty(&self) -> (r: bool)
        ensures
            r == (self.cardinality() == 0),
    {
        self.start > self.end
    }

    /// The number of rows in the range, where a 64-bit number can hold it: it
    /// cannot for the one range that runs from row 0 to the last row of all.
    pub fn len(&self) -> (r: u64)
        requires
            self.cardinality() <= u64::MAX,
        ensures
            r == self.cardinality(),
    {
        if self.start > self.end {
            0
        } else {
            self.end - self.start + 1
        }
    }
}

/// Whether a character is one of the four symbols that k-mers are made of.
pub open spec fn is_nucleotide(symbol: char) -> bool {
    symbol == 'A' || symbol == 'G' || symbol == 'C' || symbol == 'T'
}

/// The slot of a nucleotide among the symbols of an index, which keeps slot 0
/// for the end of the text and slot 4 for every other letter.
pub open spec fn symbol_slot(symbol: char) -> int {
    if symbol == 'A' {
        1
    } else if symbol == 'C' {
        2
    } else if symbol == 'G' {
        3
    } else {
        5
    }
}

/// Whether prefix sums let an index be searched for a symbol: they reach past
/// its slot, and a row stands before the rows of the symbol and of the next.
pub open spec fn serves_symbol(sums: Seq<u64>, symbol: char) -> bool {
    &&& symbol_slot(symbol) + 1 < sums.len()
    &&& sums[symbol_slot(symbol)] >= 1
    &&& sums[symbol_slot(symbol) + 1] >= 1
}

/// Whether an index can be searched for each of the four nucleotides.
pub open spec fn searchable(index: FmIndex) -> bool {
    forall|symbol: char| is_nucleotide(symbol) ==> serves_symbol(index_prefix_sums(index), symbol)
}

/// The rows of an index whose text starts with one symbol.
pub open spec fn first_range(index: FmIndex, symbol: char) -> MatchRange {
    let sums = index_prefix_sums(index);
    MatchRange {
        start: sums[symbol_slot(symbol)],
        end: (sums[symbol_slot(symbol) + 1] - 1) as u64,
    }
}

/// The range that one search step of an index gives for a range and a symbol.
pub open spec fn next_range(index: FmIndex, range: MatchRange, symbol: char) -> MatchRange {
    let ends = index_steps(index)[(range.start, range.end, symbol)];
    MatchRange { start: ends.0, end: ends.1 }
}

/// The range that an index gives for a pattern of at least one symbol. The
/// index searches backwards: it starts with the last symbol of the pattern, and
/// each step puts one more symbol in front.
pub open spec fn range_of(index: FmIndex, pattern: Seq<char>) -> MatchRange
    decreases pattern.len(),
{
    if pattern.len() <= 1 {
        first_range(index, pattern[0])
    } else {
        next_range(index, range_of(index, pattern.drop_first()), pattern[0])
    }
}

/// Calls `FmIndex::bwt_len`, which hands out the number of rows that the index
/// was built with.
#[verifier::external_body]
pub(crate) fn row_count(index: &FmIndex) -> (r: u64)
    ensures
        r == index_rows(*index),
{
    index.bwt_len()
}

/// Calls `FmIndex::prefix_sums` and copies what it refers to.
#[verifier::external_body]
pub(crate) fn prefix_sums(index: &FmIndex) -> (r: Vec<u64>)
    ensures
        r@ == index_prefix_sums(*index),
{
    index.prefix_sums().clone()
}

/// Calls `FmIndex::initial_search_range` with the symbol as a nucleotide. The
/// range runs from the prefix sum at the symbol's slot to one below the next
/// prefix sum. The call reads both sums and takes one off the second, so both
/// must be there and the second must not be zero.
#[verifier::external_body]
pub(crate) fn initial_search_range(index: &FmIndex, symbol: char) -> (r: MatchRange)
    requires
        is_nucleotide(symbol),
        symbol_slot(symbol) + 1 < index_prefix_sums(*index).len(),
        index_prefix_sums(*index)[symbol_slot(symbol) + 1] >= 1,
    ensures
        r.start == index_prefix_sums(*index)[symbol_slot(symbol)],
        r.end == index_prefix_sums(*index)[symbol_slot(symbol) + 1] - 1,
{
    let range = index.initial_search_range(Symbol::new_ascii(SymbolAlphabet::Nucleotide, symbol));
    MatchRange { start: range.start_ptr, end: range.end_ptr }
}

/// Calls `FmIndex::update_range_with_symbol` with the symbol as a nucleotide.
/// On a whole index, what comes back depends on the index, the range and the
/// symbol alone. The call counts symbols up to the row before `start` and up
/// to the row `end`, without a check that the blocks of these rows exist, adds
/// the prefix sum at the symbol's slot and takes one off. So `start` is not
/// zero, both rows lie inside the index, that prefix sum is there and not
/// zero, and the index is whole: it has the blocks of all its rows, and the
/// additions stay within 64 bits.
#[verifier::external_body]
pub(crate) fn update_range_with_symbol(index: &FmIndex, range: MatchRange, symbol: char) -> (r:
    MatchRange)
    requires
        is_nucleotide(symbol),
        1 <= range.start <= index_rows(*index),
        range.end < index_rows(*index),
        symbol_slot(symbol) < index_prefix_sums(*index).len(),
        index_prefix_sums(*index)[symbol_slot(symbol)] >= 1,
        index_whole(*index),
    ensures
        index_whole(*index) ==> (r.start, r.end) == index_steps(*index)[(
            range.start,
            range.end,
            symbol,
        )],
{
    let narrowed = index.update_range_with_symbol(
        SearchRange { start_ptr: range.start, end_ptr: range.end },
        Symbol::new_ascii(SymbolAlphabet::Nucleotide, symbol),
    );
    MatchRange { start: narrowed.start_ptr, end: narrowed.end_ptr }
}

/// Tells whether an index can be searched for each of the four nucleotides.
pub fn is_searchable(index: &FmIndex) -> (r: bool)
    ensures
        r == searchable(*index),
{
    let sums = prefix_sums(index);
    let r = sums.len() >= 7 && sums[1] >= 1 && sums[2] >= 1 && sums[3] >= 1 && sums[4] >= 1
        && sums[5] >= 1 && sums[6] >= 1;
    proof {
        if r {
            assert forall|symbol: char| is_nucleotide(symbol) implies serves_symbol(
                sums@,
                symbol,
            ) by {}
        } else {
            assert(is_nucleotide('A') && is_nucleotide('C') && is_nucleotide('G') && is_nucleotide(
                'T',
            ));
            assert(!serves_symbol(sums@, 'A') || !serves_symbol(sums@, 'C') || !serves_symbol(
                sums@,
                'G',
            ) || !serves_symbol(sums@, 'T'));
        }
    }
    r
}

} // verus!

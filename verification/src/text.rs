use vstd::prelude::*;

verus! {

/// Whether `text` ends with `suffix`.
pub open spec fn ends_with(text: Seq<char>, suffix: Seq<char>) -> bool {
    &&& suffix.len() <= text.len()
    &&& text.subrange(text.len() - suffix.len(), text.len() as int) == suffix
}

/// Whether `pattern` stands in `text` at the position `at`.
pub open spec fn occurs_at(text: Seq<char>, pattern: Seq<char>, at: int) -> bool {
    &&& 0 <= at
    &&& at + pattern.len() <= text.len()
    &&& text.subrange(at, at + pattern.len()) == pattern
}

/// The positions of `text` at which `pattern` stands.
pub open spec fn positions_of(text: Seq<char>, pattern: Seq<char>) -> Set<int> {
    Set::new(|at: int| occurs_at(text, pattern, at))
}

/// How often `pattern` stands in `text`. Occurrences that overlap all count.
pub open spec fn occurrences(text: Seq<char>, pattern: Seq<char>) -> nat {
    positions_of(text, pattern).len()
}

/// A pattern stands at finitely many positions; it stands somewhere exactly
/// when its number of occurrences is not zero.
pub proof fn lemma_occurrences_positive(text: Seq<char>, pattern: Seq<char>)
    ensures
        positions_of(text, pattern).finite(),
        occurrences(text, pattern) <= text.len() + 1,
        occurrences(text, pattern) > 0 <==> exists|at: int| occurs_at(text, pattern, at),
{
    let found = positions_of(text, pattern);
    let all = vstd::set_lib::set_int_range(0, text.len() as int + 1);
    vstd::set_lib::lemma_int_range(0, text.len() as int + 1);
    assert(found.subset_of(all));
    vstd::set_lib::lemma_len_subset(found, all);
    if found.len() > 0 {
        assert(found.contains(found.choose()));
        assert(occurs_at(text, pattern, found.choose()));
    }
    if exists|at: int| occurs_at(text, pattern, at) {
        let at = choose|at: int| occurs_at(text, pattern, at);
        assert(found.contains(at));
        if found.len() == 0 {
            assert(found =~= Set::<int>::empty()) by {
                found.lemma_len0_is_empty();
            }
        }
    }
}

/// Where a pattern stands, each of its ends stands too: the end that is left
/// after `skipped` symbols stands that many positions further on.
pub proof fn lemma_suffix_occurs(text: Seq<char>, pattern: Seq<char>, at: int, skipped: int)
    requires
        occurs_at(text, pattern, at),
        0 <= skipped <= pattern.len(),
    ensures
        occurs_at(text, pattern.skip(skipped), at + skipped),
{
    let rest = pattern.skip(skipped);
    assert(text.subrange(at + skipped, at + skipped + rest.len()) =~= rest) by {
        assert forall|i: int| 0 <= i < rest.len() implies text.subrange(
            at + skipped,
            at + skipped + rest.len(),
        )[i] == rest[i] by {
            assert(text.subrange(at, at + pattern.len())[i + skipped] == pattern[i + skipped]);
        }
    }
}

} // verus!

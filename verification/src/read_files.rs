use vstd::prelude::*;
use vstd::string::*;

use crate::text::ends_with;

verus! {

/// Tells whether `text` ends with `suffix`, character by character.
pub fn str_ends_with(text: &str, suffix: &str) -> (r: bool)
    ensures
        r == ends_with(text@, suffix@),
{
    let n = text.unicode_len();
    let m = suffix.unicode_len();
    if m > n {
        return false;
    }
    let offset = n - m;
    let mut i: usize = 0;
    while i < m
        invariant
            n == text@.len(),
            m == suffix@.len(),
            m <= n,
            offset == n - m,
            i <= m,
            forall|j: int| 0 <= j < i ==> text@[offset + j] == suffix@[j],
        decreases m - i,
    {
        if text.get_char(offset + i) != suffix.get_char(i) {
            assert(text@.subrange(text@.len() - suffix@.len(), text@.len() as int)[i as int]
                == text@[offset + i]);
            return false;
        }
        i += 1;
    }
    assert(text@.subrange(text@.len() - suffix@.len(), text@.len() as int) =~= suffix@);
    true
}

/// Whether a file of this name holds reads: its name ends in `.fq` or in
/// `fastq`.
pub open spec fn names_fastq_file(file_name: Seq<char>) -> bool {
    ends_with(file_name, ".fq"@) || ends_with(file_name, "fastq"@)
}

/// Tells whether a file of this name is taken as a read file.
pub fn is_fastq_file(file_name: &str) -> (r: bool)
    ensures
        r == names_fastq_file(file_name@),
{
    str_ends_with(file_name, ".fq") || str_ends_with(file_name, "fastq")
}

} // verus!

//! Line counting over raw file contents.
//!
//! A line is any sequence of bytes terminated by a line feed; a final
//! unterminated sequence still counts as one line. Binary contents are not
//! special-cased: they are scanned byte by byte under the same rule.

use vstd::prelude::*;

verus! {

/// The number of line-feed bytes in `s`.
pub open spec fn nl_count(s: Seq<u8>) -> nat
    decreases s.len(),
{
    if s.len() == 0 {
        0
    } else {
        nl_count(s.drop_last()) + (if s.last() == 10u8 {
            1nat
        } else {
            0nat
        })
    }
}

/// The number of lines in a byte sequence: one per line feed, plus one for a
/// non-empty final segment that lacks its terminator.
pub open spec fn spec_line_count(s: Seq<u8>) -> nat {
    nl_count(s) + (if s.len() > 0 && s.last() != 10u8 {
        1nat
    } else {
        0nat
    })
}

/// Total line count of a sequence of file contents.
pub open spec fn sum_lines(contents: Seq<Seq<u8>>) -> nat
    decreases contents.len(),
{
    if contents.len() == 0 {
        0
    } else {
        sum_lines(contents.drop_last()) + spec_line_count(contents.last())
    }
}

proof fn lemma_nl_count_le(s: Seq<u8>)
    ensures
        nl_count(s) <= s.len(),
    decreases s.len(),
{
    if s.len() > 0 {
        lemma_nl_count_le(s.drop_last());
    }
}

/// Count the lines of one file's contents.
pub fn count_lines(content: &Vec<u8>) -> (n: usize)
    ensures
        n == spec_line_count(content@),
{
    let mut count: usize = 0;
    let mut i: usize = 0;
    while i < content.len()
        invariant
            i <= content@.len(),
            count <= i,
            count == nl_count(content@.take(i as int)),
        decreases content@.len() - i,
    {
        let b = content[i];
        proof {
            assert(content@.take(i + 1).drop_last() =~= content@.take(i as int));
            assert(content@.take(i + 1).last() == content@[i as int]);
        }
        if b == 10 {
            count = count + 1;
        }
        i = i + 1;
    }
    proof {
        assert(content@.take(content@.len() as int) =~= content@);
    }
    if content.len() > 0 && content[content.len() - 1] != 10 {
        proof {
            assert(content@.last() != 10u8);
            assert(nl_count(content@) == nl_count(content@.drop_last()));
            lemma_nl_count_le(content@.drop_last());
        }
        count + 1
    } else {
        count
    }
}

/// Law: a file whose final line lacks its terminator still counts that line;
/// appending the missing line feed leaves the line count unchanged.
pub proof fn lemma_unterminated_final_line(s: Seq<u8>)
    requires
        s.len() > 0,
        s.last() != 10u8,
    ensures
        spec_line_count(s.push(10u8)) == spec_line_count(s),
{
    assert(s.push(10u8).drop_last() =~= s);
    assert(s.push(10u8).last() == 10u8);
}

} // verus!

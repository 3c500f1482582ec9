//! Ignore rules: parsing an ignore file into glob patterns and testing a
//! relative path against them.
//!
//! An ignore file holds one shell-glob pattern per line; lines starting with
//! `#` and blank lines carry no pattern. A path is excluded when any pattern
//! matches it. A malformed pattern, or one that is not valid UTF-8, matches
//! nothing: it is skipped rather than aborting the run.

use vstd::prelude::*;

verus! {

/// What `glob` answers for a pattern and a path, both given as bytes:
/// `None` when the pattern is not valid UTF-8 or does not compile,
/// `Some(m)` when it compiles, where `m` says whether it matches the path
/// (a path that is not valid UTF-8 matches no pattern).
pub uninterp spec fn glob_result(pattern: Seq<u8>, path: Seq<u8>) -> Option<bool>;

/// Relies on `glob::Pattern::new` and `glob::Pattern::matches`: both are pure
/// functions of the pattern and path text, with the default match options.
/// A path that is not valid UTF-8 never matches, as `Pattern::matches_path`
/// treats it.
#[verifier::external_body]
fn glob_match_bytes(pattern: &Vec<u8>, path: &Vec<u8>) -> (r: Option<bool>)
    ensures
        r == glob_result(pattern@, path@),
{
    let p = match std::str::from_utf8(pattern) {
        Ok(p) => p,
        Err(_) => return None,
    };
    let compiled = match glob::Pattern::new(p) {
        Ok(c) => c,
        Err(_) => return None,
    };
    match std::str::from_utf8(path) {
        Ok(q) => Some(compiled.matches(q)),
        Err(_) => Some(false),
    }
}

/// A single pattern excludes a path exactly when it compiles and matches.
pub open spec fn spec_pattern_matches(pattern: Seq<u8>, path: Seq<u8>) -> bool {
    glob_result(pattern, path) == Some(true)
}

/// A path is excluded when some pattern in the rule set matches it.
pub open spec fn spec_excluded(patterns: Seq<Seq<u8>>, path: Seq<u8>) -> bool {
    exists|i: int| 0 <= i < patterns.len() && spec_pattern_matches(patterns[i], path)
}

/// A path is admitted when no pattern matches it.
pub open spec fn spec_admitted(patterns: Seq<Seq<u8>>, path: Seq<u8>) -> bool {
    !spec_excluded(patterns, path)
}

/// Test a relative path against every pattern in the rule set.
pub fn is_excluded(patterns: &Vec<Vec<u8>>, rel_path: &Vec<u8>) -> (r: bool)
    ensures
        r == spec_excluded(patterns.deep_view(), rel_path@),
{
    let ghost pats = patterns.deep_view();
    let mut i: usize = 0;
    while i < patterns.len()
        invariant
            pats == patterns.deep_view(),
            i <= pats.len(),
            forall|t: int| 0 <= t < i ==> !spec_pattern_matches(pats[t], rel_path@),
        decreases pats.len() - i,
    {
        let m = glob_match_bytes(&patterns[i], rel_path);
        proof {
            assert(patterns@[i as int].deep_view() =~= patterns@[i as int]@);
            assert(pats[i as int] == patterns@[i as int]@);
            assert(m == glob_result(pats[i as int], rel_path@));
        }
        if let Some(true) = m {
            proof {
                assert(spec_pattern_matches(pats[i as int], rel_path@));
            }
            return true;
        }
        i = i + 1;
    }
    false
}

/// Law: with no patterns at all, no path is excluded; every file is admitted.
pub proof fn lemma_no_patterns_admit_all(path: Seq<u8>)
    ensures
        spec_admitted(Seq::<Seq<u8>>::empty(), path),
{
}

/// The index of the first line feed at or after `i`, or `s.len()` if none.
pub open spec fn next_nl(s: Seq<u8>, i: int) -> int
    decreases s.len() - i,
{
    if !(0 <= i < s.len()) {
        s.len() as int
    } else if s[i] == 10u8 {
        i
    } else {
        next_nl(s, i + 1)
    }
}

proof fn lemma_next_nl_bounds(s: Seq<u8>, i: int)
    requires
        0 <= i <= s.len(),
    ensures
        i <= next_nl(s, i) <= s.len(),
        next_nl(s, i) < s.len() ==> s[next_nl(s, i)] == 10u8,
        forall|k: int| i <= k < next_nl(s, i) ==> s[k] != 10u8,
    decreases s.len() - i,
{
    if i < s.len() && s[i] != 10u8 {
        lemma_next_nl_bounds(s, i + 1);
    }
}

/// One trailing carriage return is stripped from a line, as a reader of
/// text lines strips a CRLF ending.
pub open spec fn strip_cr(line: Seq<u8>) -> Seq<u8> {
    if line.len() > 0 && line.last() == 13u8 {
        line.drop_last()
    } else {
        line
    }
}

/// ASCII whitespace, as far as a byte-wise scan can see it.
pub open spec fn is_blank_byte(b: u8) -> bool {
    b == 32 || b == 9 || b == 10 || b == 11 || b == 12 || b == 13
}

/// A line carries a pattern when it does not start with `#` and holds at
/// least one non-whitespace byte.
pub open spec fn keeps_line(line: Seq<u8>) -> bool {
    &&& !(line.len() > 0 && line[0] == 35u8)
    &&& exists|k: int| 0 <= k < line.len() && !is_blank_byte(line[k])
}

/// The patterns carried by the lines of `s` from position `i` on: each line
/// runs to the next line feed, loses one trailing carriage return, and is
/// kept when it is neither a comment nor blank.
pub open spec fn patterns_from(s: Seq<u8>, i: int) -> Seq<Seq<u8>>
    decreases s.len() + 1 - i,
    via patterns_from_decreases
{
    if !(0 <= i < s.len()) {
        Seq::empty()
    } else {
        let j = next_nl(s, i);
        let line = strip_cr(s.subrange(i, j));
        let rest = patterns_from(s, j + 1);
        if keeps_line(line) {
            seq![line] + rest
        } else {
            rest
        }
    }
}

#[via_fn]
proof fn patterns_from_decreases(s: Seq<u8>, i: int) {
    if 0 <= i < s.len() {
        lemma_next_nl_bounds(s, i);
    }
}

/// The ordered rule set carried by the whole ignore file `s`.
pub open spec fn spec_patterns(s: Seq<u8>) -> Seq<Seq<u8>> {
    patterns_from(s, 0)
}

fn byte_is_blank(b: u8) -> (r: bool)
    ensures
        r == is_blank_byte(b),
{
    b == 32 || b == 9 || b == 10 || b == 11 || b == 12 || b == 13
}

/// Read a rule set out of the bytes of an ignore file. A missing file is an
/// empty `content`, which yields an empty rule set.
pub fn parse_ignore_patterns(content: &Vec<u8>) -> (pats: Vec<Vec<u8>>)
    ensures
        pats.deep_view() == spec_patterns(content@),
{
    let ghost s = content@;
    let mut pats: Vec<Vec<u8>> = Vec::new();
    let mut i: usize = 0;
    while i < content.len()
        invariant
            s == content@,
            i <= s.len(),
            pats.deep_view() + patterns_from(s, i as int) == spec_patterns(s),
        decreases s.len() - i,
    {
        let ghost i0 = i as int;
        proof {
            lemma_next_nl_bounds(s, i0);
        }
        // find the end of the current line
        let mut j: usize = i;
        while j < content.len() && content[j] != 10
            invariant
                s == content@,
                i <= j <= s.len(),
                next_nl(s, i as int) == next_nl(s, j as int),
            decreases s.len() - j,
        {
            proof {
                assert(next_nl(s, j as int) == next_nl(s, j + 1));
            }
            j = j + 1;
        }
        proof {
            assert(next_nl(s, j as int) == j);
            assert(next_nl(s, i0) == j);
        }
        // copy the line, stripping one trailing carriage return
        let end = if j > i && content[j - 1] == 13 {
            j - 1
        } else {
            j
        };
        let mut line: Vec<u8> = Vec::new();
        let mut k: usize = i;
        while k < end
            invariant
                s == content@,
                i <= k <= end,
                end <= s.len(),
                line@ == s.subrange(i as int, k as int),
            decreases end - k,
        {
            let b = content[k];
            line.push(b);
            proof {
                assert(s.subrange(i as int, k + 1) =~= s.subrange(i as int, k as int).push(
                    s[k as int],
                ));
            }
            k = k + 1;
        }
        proof {
            let full = s.subrange(i0, j as int);
            if j > i && s[j - 1] == 13u8 {
                assert(full.last() == s[j - 1]);
                assert(full.drop_last() =~= s.subrange(i0, j - 1));
                assert(line@ == strip_cr(full));
            } else {
                assert(line@ =~= full);
                if full.len() > 0 {
                    assert(full.last() == s[j - 1]);
                }
                assert(line@ == strip_cr(full));
            }
        }
        // decide whether the line carries a pattern
        let keep: bool;
        if line.len() > 0 && line[0] == 35 {
            keep = false;
        } else {
            let mut has_solid = false;
            let mut m: usize = 0;
            while m < line.len()
                invariant
                    m <= line@.len(),
                    has_solid == exists|t: int| 0 <= t < m && !is_blank_byte(line@[t]),
                decreases line@.len() - m,
            {
                if !byte_is_blank(line[m]) {
                    has_solid = true;
                }
                m = m + 1;
            }
            keep = has_solid;
        }
        proof {
            assert(keep == keeps_line(line@));
        }
        let ghost old_dv = pats.deep_view();
        if keep {
            pats.push(line);
            proof {
                assert(pats.deep_view() =~~= old_dv + seq![line@]);
            }
        }
        proof {
            let rest = patterns_from(s, j + 1);
            assert(patterns_from(s, i0) == (if keeps_line(line@) {
                seq![line@] + rest
            } else {
                rest
            }));
            if keep {
                assert((old_dv + seq![line@]) + rest =~= old_dv + (seq![line@] + rest));
            }
        }
        i = if j == content.len() {
            j
        } else {
            j + 1
        };
        proof {
            if j == s.len() {
                assert(patterns_from(s, j as int) == patterns_from(s, j + 1));
            }
        }
    }
    proof {
        assert(patterns_from(s, i as int) == Seq::<Seq<u8>>::empty());
        assert(pats.deep_view() + Seq::<Seq<u8>>::empty() =~= pats.deep_view());
    }
    pats
}

} // verus!

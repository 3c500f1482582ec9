//! Filtered totals for one directory: which files a rule set admits, and the
//! file and line counts that the admitted files contribute.

use vstd::prelude::*;

use crate::ignore::is_excluded;
use crate::ignore::parse_ignore_patterns;
use crate::ignore::spec_admitted;
use crate::ignore::spec_excluded;
use crate::ignore::spec_pattern_matches;
use crate::ignore::spec_patterns;
use crate::lines::count_lines;
use crate::lines::spec_line_count;
use crate::lines::sum_lines;

verus! {

/// How many of the files named by `paths` the rule set admits.
pub open spec fn dir_file_count(patterns: Seq<Seq<u8>>, paths: Seq<Seq<u8>>) -> nat
    decreases paths.len(),
{
    if paths.len() == 0 {
        0
    } else {
        dir_file_count(patterns, paths.drop_last()) + (if spec_admitted(patterns, paths.last()) {
            1nat
        } else {
            0nat
        })
    }
}

/// The summed line counts of the admitted files, where `contents[i]` holds
/// the bytes of the file named by `paths[i]`.
pub open spec fn dir_line_count(
    patterns: Seq<Seq<u8>>,
    paths: Seq<Seq<u8>>,
    contents: Seq<Seq<u8>>,
) -> nat
    recommends
        contents.len() == paths.len(),
    decreases paths.len(),
{
    if paths.len() == 0 {
        0
    } else {
        dir_line_count(patterns, paths.drop_last(), contents.drop_last()) + (if spec_admitted(
            patterns,
            paths.last(),
        ) {
            spec_line_count(contents.last())
        } else {
            0nat
        })
    }
}

/// Law: with no ignore file, every file counts: the file total is the number
/// of files and the line total is the sum of every file's line count.
pub proof fn lemma_no_ignore_counts_all(paths: Seq<Seq<u8>>, contents: Seq<Seq<u8>>)
    requires
        contents.len() == paths.len(),
    ensures
        dir_file_count(Seq::empty(), paths) == paths.len(),
        dir_line_count(Seq::empty(), paths, contents) == sum_lines(contents),
    decreases paths.len(),
{
    if paths.len() > 0 {
        lemma_no_ignore_counts_all(paths.drop_last(), contents.drop_last());
    }
}

/// Appending one pattern excludes a path exactly when the old rule set
/// already did or the new pattern matches it.
proof fn lemma_excluded_push(patterns: Seq<Seq<u8>>, p: Seq<u8>, path: Seq<u8>)
    ensures
        spec_excluded(patterns.push(p), path) == (spec_excluded(patterns, path)
            || spec_pattern_matches(p, path)),
{
    let pushed = patterns.push(p);
    if spec_excluded(pushed, path) {
        let i = choose|i: int| 0 <= i < pushed.len() && spec_pattern_matches(pushed[i], path);
        if i < patterns.len() {
            assert(pushed[i] == patterns[i]);
            assert(spec_excluded(patterns, path));
        } else {
            assert(pushed[i] == p);
        }
    }
    if spec_excluded(patterns, path) {
        let i = choose|i: int| 0 <= i < patterns.len() && spec_pattern_matches(patterns[i], path);
        assert(pushed[i] == patterns[i]);
        assert(spec_excluded(pushed, path));
    }
    if spec_pattern_matches(p, path) {
        assert(pushed[patterns.len() as int] == p);
        assert(spec_excluded(pushed, path));
    }
}

/// A pattern that matches only already-excluded files changes no total.
proof fn lemma_push_no_change(
    patterns: Seq<Seq<u8>>,
    paths: Seq<Seq<u8>>,
    contents: Seq<Seq<u8>>,
    p: Seq<u8>,
)
    requires
        contents.len() == paths.len(),
        forall|i: int|
            0 <= i < paths.len() && spec_pattern_matches(p, #[trigger] paths[i]) ==> spec_excluded(
                patterns,
                paths[i],
            ),
    ensures
        dir_file_count(patterns.push(p), paths) == dir_file_count(patterns, paths),
        dir_line_count(patterns.push(p), paths, contents) == dir_line_count(
            patterns,
            paths,
            contents,
        ),
    decreases paths.len(),
{
    if paths.len() > 0 {
        assert(forall|i: int|
            0 <= i < paths.len() - 1 ==> paths.drop_last()[i] == #[trigger] paths[i]);
        lemma_push_no_change(patterns, paths.drop_last(), contents.drop_last(), p);
        lemma_excluded_push(patterns, p, paths.last());
        assert(paths[paths.len() - 1] == paths.last());
    }
}

/// Law: adding one ignore pattern that matches a single admitted file, and
/// otherwise only files that were already excluded, lowers the file total by
/// exactly one and the line total by exactly that file's line count.
pub proof fn lemma_ignoring_one_file(
    patterns: Seq<Seq<u8>>,
    paths: Seq<Seq<u8>>,
    contents: Seq<Seq<u8>>,
    p: Seq<u8>,
    x: int,
)
    requires
        contents.len() == paths.len(),
        0 <= x < paths.len(),
        spec_admitted(patterns, paths[x]),
        spec_pattern_matches(p, paths[x]),
        forall|i: int|
            0 <= i < paths.len() && i != x && spec_pattern_matches(p, #[trigger] paths[i])
                ==> spec_excluded(patterns, paths[i]),
    ensures
        dir_file_count(patterns.push(p), paths) + 1 == dir_file_count(patterns, paths),
        dir_line_count(patterns.push(p), paths, contents) + spec_line_count(contents[x])
            == dir_line_count(patterns, paths, contents),
    decreases paths.len(),
{
    assert(forall|i: int| 0 <= i < paths.len() - 1 ==> paths.drop_last()[i] == #[trigger] paths[i]);
    assert(paths[paths.len() - 1] == paths.last());
    assert(contents[contents.len() - 1] == contents.last());
    if x == paths.len() - 1 {
        lemma_push_no_change(patterns, paths.drop_last(), contents.drop_last(), p);
        lemma_excluded_push(patterns, p, paths.last());
    } else {
        lemma_ignoring_one_file(patterns, paths.drop_last(), contents.drop_last(), p, x);
        lemma_excluded_push(patterns, p, paths.last());
    }
}

proof fn lemma_dir_counts_take_step(
    patterns: Seq<Seq<u8>>,
    paths: Seq<Seq<u8>>,
    contents: Seq<Seq<u8>>,
    i: int,
)
    requires
        contents.len() == paths.len(),
        0 <= i < paths.len(),
    ensures
        dir_file_count(patterns, paths.take(i + 1)) == dir_file_count(patterns, paths.take(i)) + (
        if spec_admitted(patterns, paths[i]) {
            1nat
        } else {
            0nat
        }),
        dir_line_count(patterns, paths.take(i + 1), contents.take(i + 1)) == dir_line_count(
            patterns,
            paths.take(i),
            contents.take(i),
        ) + (if spec_admitted(patterns, paths[i]) {
            spec_line_count(contents[i])
        } else {
            0nat
        }),
{
    assert(paths.take(i + 1).drop_last() =~= paths.take(i));
    assert(contents.take(i + 1).drop_last() =~= contents.take(i));
    assert(paths.take(i + 1).last() == paths[i]);
    assert(contents.take(i + 1).last() == contents[i]);
}

proof fn lemma_dir_line_count_mono(
    patterns: Seq<Seq<u8>>,
    paths: Seq<Seq<u8>>,
    contents: Seq<Seq<u8>>,
    i: int,
)
    requires
        contents.len() == paths.len(),
        0 <= i <= paths.len(),
    ensures
        dir_line_count(patterns, paths.take(i), contents.take(i)) <= dir_line_count(
            patterns,
            paths,
            contents,
        ),
    decreases paths.len() - i,
{
    if i == paths.len() {
        assert(paths.take(i) =~= paths);
        assert(contents.take(i) =~= contents);
    } else {
        lemma_dir_counts_take_step(patterns, paths, contents, i);
        lemma_dir_line_count_mono(patterns, paths, contents, i + 1);
    }
}

/// The whole of one directory's traversal and filter: load the rule set from
/// the ignore file's bytes, admit each file that no pattern matches, and
/// return the admitted-file count and their summed line count. `None` exactly
/// when the line total overflows the machine word.
pub fn directory_counts(ignore_content: &Vec<u8>, paths: &Vec<Vec<u8>>, contents: &Vec<Vec<u8>>)
    -> (r: Option<(usize, usize)>)
    requires
        paths@.len() == contents@.len(),
    ensures
        ({
            let pats = spec_patterns(ignore_content@);
            let fc = dir_file_count(pats, paths.deep_view());
            let lc = dir_line_count(pats, paths.deep_view(), contents.deep_view());
            match r {
                Some(c) => c.0 == fc && c.1 == lc,
                None => lc > usize::MAX,
            }
        }),
{
    let ghost pv = paths.deep_view();
    let ghost cv = contents.deep_view();
    proof {
        assert(pv.len() == paths@.len());
        assert(cv.len() == contents@.len());
    }
    let patterns = parse_ignore_patterns(ignore_content);
    let mut fc: usize = 0;
    let mut lc: usize = 0;
    let mut i: usize = 0;
    while i < paths.len()
        invariant
            pv == paths.deep_view(),
            cv == contents.deep_view(),
            pv.len() == paths@.len(),
            cv.len() == pv.len(),
            patterns.deep_view() == spec_patterns(ignore_content@),
            i <= pv.len(),
            fc <= i,
            fc == dir_file_count(patterns.deep_view(), pv.take(i as int)),
            lc == dir_line_count(patterns.deep_view(), pv.take(i as int), cv.take(i as int)),
        decreases pv.len() - i,
    {
        proof {
            lemma_dir_counts_take_step(patterns.deep_view(), pv, cv, i as int);
            assert(pv[i as int] == paths@[i as int].deep_view());
            assert(paths@[i as int].deep_view() =~= paths@[i as int]@);
            assert(cv[i as int] == contents@[i as int].deep_view());
            assert(contents@[i as int].deep_view() =~= contents@[i as int]@);
        }
        if !is_excluded(&patterns, &paths[i]) {
            let n = count_lines(&contents[i]);
            if n > usize::MAX - lc {
                proof {
                    lemma_dir_line_count_mono(patterns.deep_view(), pv, cv, i + 1);
                }
                return None;
            }
            fc = fc + 1;
            lc = lc + n;
        }
        i = i + 1;
    }
    proof {
        assert(pv.take(pv.len() as int) =~= pv);
        assert(cv.take(cv.len() as int) =~= cv);
    }
    Some((fc, lc))
}

} // verus!

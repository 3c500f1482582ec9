//! Aggregate statistics for a directory tree that may hold version-controlled
//! repositories: a count of the files admitted by per-directory ignore rules,
//! the sum of those files' line counts, and the number of commits reachable
//! from each repository's head, combined across nested submodules.
//!
//! The engine works on plain values handed in by its caller: the bytes of an
//! ignore file, the relative path and bytes of each file, and a repository's
//! history as a parent table over commit indices. Walking the filesystem and
//! reading repository metadata stay with the caller.

pub mod commits;
pub mod filter;
pub mod ignore;
pub mod lines;

use vstd::prelude::*;

use crate::filter::dir_file_count;
use crate::filter::dir_line_count;
use crate::lines::spec_line_count;
use crate::lines::sum_lines;

verus! {

/// Running totals for a stats-gathering run: admitted files, their summed
/// line counts, and commits found across every visited repository.
pub struct DirStats {
    pub file_count: usize,
    pub line_count: usize,
    pub commit_count: usize,
}

impl DirStats {
    /// A fresh aggregate with all three counts at zero.
    pub fn new() -> (s: DirStats)
        ensures
            s.file_count == 0,
            s.line_count == 0,
            s.commit_count == 0,
    {
        DirStats { file_count: 0, line_count: 0, commit_count: 0 }
    }

    /// Record one admitted file: the file count rises by one and the line
    /// count by the file's line count; commits are untouched.
    pub fn record_file(&mut self, content: &Vec<u8>)
        requires
            old(self).file_count < usize::MAX,
            old(self).line_count + spec_line_count(content@) <= usize::MAX,
        ensures
            final(self).file_count == old(self).file_count + 1,
            final(self).line_count == old(self).line_count + spec_line_count(content@),
            final(self).commit_count == old(self).commit_count,
    {
        let n = crate::lines::count_lines(content);
        self.file_count = self.file_count + 1;
        self.line_count = self.line_count + n;
    }

    /// Record a batch of admitted files: one per entry of `contents`, with
    /// the summed line counts added; commits are untouched.
    pub fn record_files(&mut self, contents: &Vec<Vec<u8>>)
        requires
            old(self).file_count + contents@.len() <= usize::MAX,
            old(self).line_count + sum_lines(contents.deep_view()) <= usize::MAX,
        ensures
            final(self).file_count == old(self).file_count + contents@.len(),
            final(self).line_count == old(self).line_count + sum_lines(contents.deep_view()),
            final(self).commit_count == old(self).commit_count,
    {
        let ghost cv = contents.deep_view();
        let ghost fc0 = self.file_count;
        let ghost lc0 = self.line_count;
        let mut i: usize = 0;
        while i < contents.len()
            invariant
                cv == contents.deep_view(),
                cv.len() == contents@.len(),
                i <= cv.len(),
                fc0 + cv.len() <= usize::MAX,
                lc0 + sum_lines(cv) <= usize::MAX,
                self.file_count == fc0 + i,
                self.line_count == lc0 + sum_lines(cv.take(i as int)),
                self.commit_count == old(self).commit_count,
            decreases cv.len() - i,
        {
            proof {
                assert(cv.take(i + 1).drop_last() =~= cv.take(i as int));
                assert(cv.take(i + 1).last() == cv[i as int]);
                lemma_sum_lines_take_le(cv, i + 1);
                assert(cv[i as int] == contents@[i as int].deep_view());
                assert(contents@[i as int].deep_view() =~= contents@[i as int]@);
            }
            self.record_file(&contents[i]);
            i = i + 1;
        }
        proof {
            assert(cv.take(cv.len() as int) =~= cv);
        }
    }

    /// Add a repository's commit count onto the aggregate; files and lines
    /// are untouched.
    pub fn add_commits(&mut self, n: usize)
        requires
            old(self).commit_count + n <= usize::MAX,
        ensures
            final(self).commit_count == old(self).commit_count + n,
            final(self).file_count == old(self).file_count,
            final(self).line_count == old(self).line_count,
    {
        self.commit_count = self.commit_count + n;
    }
}

proof fn lemma_sum_lines_take_le(contents: Seq<Seq<u8>>, i: int)
    requires
        0 <= i <= contents.len(),
    ensures
        sum_lines(contents.take(i)) <= sum_lines(contents),
    decreases contents.len() - i,
{
    if i == contents.len() {
        assert(contents.take(i) =~= contents);
    } else {
        assert(contents.take(i + 1).drop_last() =~= contents.take(i));
        lemma_sum_lines_take_le(contents, i + 1);
    }
}

/// One gather step in the model: a directory's filtered file and line totals
/// and its repository's commit count, added onto a running aggregate of
/// (files, lines, commits).
pub open spec fn after_gather(
    s: (nat, nat, nat),
    patterns: Seq<Seq<u8>>,
    paths: Seq<Seq<u8>>,
    contents: Seq<Seq<u8>>,
    commits: nat,
) -> (nat, nat, nat) {
    (
        s.0 + dir_file_count(patterns, paths),
        s.1 + dir_line_count(patterns, paths, contents),
        s.2 + commits,
    )
}

/// Law: a root repository and a nested submodule contribute componentwise.
/// Gathering a root with `F` admitted files and `C` commits and then a
/// submodule with `M` admitted files and `K` commits yields the totals
/// `F + M` files, `C + K` commits, and the two directories' summed lines.
pub proof fn lemma_submodule_totals(
    root_patterns: Seq<Seq<u8>>,
    root_paths: Seq<Seq<u8>>,
    root_contents: Seq<Seq<u8>>,
    c: nat,
    sub_patterns: Seq<Seq<u8>>,
    sub_paths: Seq<Seq<u8>>,
    sub_contents: Seq<Seq<u8>>,
    k: nat,
)
    ensures
        ({
            let total = after_gather(
                after_gather((0, 0, 0), root_patterns, root_paths, root_contents, c),
                sub_patterns,
                sub_paths,
                sub_contents,
                k,
            );
            &&& total.0 == dir_file_count(root_patterns, root_paths) + dir_file_count(
                sub_patterns,
                sub_paths,
            )
            &&& total.1 == dir_line_count(root_patterns, root_paths, root_contents)
                + dir_line_count(sub_patterns, sub_paths, sub_contents)
            &&& total.2 == c + k
        }),
{
}

} // verus!

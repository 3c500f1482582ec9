use dir_stats::commits::count_reachable;
use dir_stats::filter::directory_counts;
use dir_stats::ignore::is_excluded;
use dir_stats::ignore::parse_ignore_patterns;
use dir_stats::lines::count_lines;
use dir_stats::DirStats;

fn lines_of(n: usize) -> Vec<u8> {
    let mut v = Vec::new();
    for i in 0..n {
        v.extend_from_slice(format!("line {}\n", i).as_bytes());
    }
    v
}

#[test]
fn new_aggregate_is_zero() {
    let s = DirStats::new();
    assert_eq!(s.file_count, 0);
    assert_eq!(s.line_count, 0);
    assert_eq!(s.commit_count, 0);
}

#[test]
fn empty_file_has_zero_lines() {
    assert_eq!(count_lines(&Vec::new()), 0);
}

#[test]
fn unterminated_final_line_counts() {
    assert_eq!(count_lines(&b"a\nb".to_vec()), 2);
    assert_eq!(count_lines(&b"abc".to_vec()), 1);
}

#[test]
fn terminated_lines_count_once() {
    assert_eq!(count_lines(&b"a\n".to_vec()), 1);
    assert_eq!(count_lines(&b"a\nb\n".to_vec()), 2);
    assert_eq!(count_lines(&b"\n\n".to_vec()), 2);
}

#[test]
fn binary_bytes_scan_as_text() {
    assert_eq!(count_lines(&vec![0u8, 10, 0, 0, 10, 7]), 3);
}

#[test]
fn parse_skips_comments_and_blanks() {
    let content = b"foo\n#comment\n\n   \nbar.rs\n".to_vec();
    let pats = parse_ignore_patterns(&content);
    assert_eq!(pats, vec![b"foo".to_vec(), b"bar.rs".to_vec()]);
}

#[test]
fn parse_strips_crlf_and_keeps_inner_spaces() {
    let content = b"a.txt\r\n *.tmp".to_vec();
    let pats = parse_ignore_patterns(&content);
    assert_eq!(pats, vec![b"a.txt".to_vec(), b" *.tmp".to_vec()]);
}

#[test]
fn parse_empty_content_gives_no_patterns() {
    assert_eq!(parse_ignore_patterns(&Vec::new()), Vec::<Vec<u8>>::new());
}

#[test]
fn glob_pattern_excludes_matching_path() {
    let pats = vec![b"*.rs".to_vec()];
    assert!(is_excluded(&pats, &b"a.rs".to_vec()));
    assert!(!is_excluded(&pats, &b"a.txt".to_vec()));
}

#[test]
fn glob_star_crosses_separators_by_default() {
    // the default match options place no separator restriction on `*`
    let pats = vec![b"*.rs".to_vec()];
    assert!(is_excluded(&pats, &b"src/a.rs".to_vec()));
    let deep = vec![b"src/*.rs".to_vec()];
    assert!(is_excluded(&deep, &b"src/a.rs".to_vec()));
    assert!(!is_excluded(&deep, &b"other/a.rs".to_vec()));
}

#[test]
fn malformed_pattern_matches_nothing() {
    let pats = vec![b"[".to_vec()];
    assert!(!is_excluded(&pats, &b"[".to_vec()));
    assert!(!is_excluded(&pats, &b"a".to_vec()));
}

#[test]
fn non_utf8_path_matches_nothing() {
    let pats = vec![b"*".to_vec()];
    assert!(!is_excluded(&pats, &vec![0xff, 0xfe]));
}

#[test]
fn question_mark_and_classes_match() {
    let pats = vec![b"c?t".to_vec(), b"[0-9].log".to_vec()];
    assert!(is_excluded(&pats, &b"cat".to_vec()));
    assert!(is_excluded(&pats, &b"7.log".to_vec()));
    assert!(!is_excluded(&pats, &b"cart".to_vec()));
}

#[test]
fn directory_counts_no_ignore_counts_all() {
    let paths = vec![b"a.txt".to_vec(), b"b.txt".to_vec()];
    let contents = vec![lines_of(3), Vec::new()];
    let r = directory_counts(&Vec::new(), &paths, &contents);
    assert_eq!(r, Some((2, 3)));
}

#[test]
fn adding_matching_pattern_drops_one_file() {
    let paths = vec![b"keep.txt".to_vec(), b"drop.txt".to_vec()];
    let contents = vec![lines_of(4), lines_of(5)];
    let without = directory_counts(&Vec::new(), &paths, &contents).unwrap();
    let with = directory_counts(&b"drop.txt\n".to_vec(), &paths, &contents).unwrap();
    assert_eq!(without, (2, 9));
    assert_eq!(with.0, without.0 - 1);
    assert_eq!(with.1, without.1 - 5);
}

#[test]
fn end_to_end_directory_without_repository() {
    // three regular files of 10, 0 and 5 lines; the 5-line file is ignored
    let ignore = b"five.txt\n".to_vec();
    let paths = vec![b"ten.txt".to_vec(), b"empty.txt".to_vec(), b"five.txt".to_vec()];
    let contents = vec![lines_of(10), Vec::new(), lines_of(5)];

    let mut stats = DirStats::new();
    let pats = parse_ignore_patterns(&ignore);
    for (path, content) in paths.iter().zip(contents.iter()) {
        if !is_excluded(&pats, path) {
            stats.record_file(content);
        }
    }
    assert_eq!(stats.file_count, 2);
    assert_eq!(stats.line_count, 10);
    assert_eq!(stats.commit_count, 0);
}

#[test]
fn single_commit_counts_one() {
    let parents: Vec<Vec<usize>> = vec![vec![]];
    assert_eq!(count_reachable(&parents, 0), 1);
}

#[test]
fn linear_chain_counts_every_commit() {
    let parents: Vec<Vec<usize>> = vec![vec![1], vec![2], vec![]];
    assert_eq!(count_reachable(&parents, 0), 3);
}

#[test]
fn head_mid_chain_counts_only_ancestors() {
    let parents: Vec<Vec<usize>> = vec![vec![1], vec![2], vec![]];
    assert_eq!(count_reachable(&parents, 1), 2);
}

#[test]
fn merge_does_not_double_count_shared_ancestor() {
    // merge commit 0 joins branches 1 and 2, which share ancestor 3
    let parents: Vec<Vec<usize>> = vec![vec![1, 2], vec![3], vec![3], vec![]];
    assert_eq!(count_reachable(&parents, 0), 4);
}

#[test]
fn unreachable_commits_do_not_count() {
    let parents: Vec<Vec<usize>> = vec![vec![], vec![0]];
    assert_eq!(count_reachable(&parents, 0), 1);
}

#[test]
fn record_files_accumulates_batch() {
    let mut stats = DirStats::new();
    stats.record_files(&vec![lines_of(10), Vec::new()]);
    assert_eq!(stats.file_count, 2);
    assert_eq!(stats.line_count, 10);
    assert_eq!(stats.commit_count, 0);
}

#[test]
fn root_and_submodule_totals_add_componentwise() {
    // root: 2 files, 3 commits; submodule: 1 file, 2 commits
    let mut stats = DirStats::new();
    stats.record_files(&vec![lines_of(2), lines_of(4)]);
    stats.add_commits(3);
    stats.record_files(&vec![lines_of(7)]);
    stats.add_commits(2);
    assert_eq!(stats.file_count, 2 + 1);
    assert_eq!(stats.line_count, 6 + 7);
    assert_eq!(stats.commit_count, 3 + 2);
}

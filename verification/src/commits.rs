//! Commit counting over a history graph.
//!
//! A repository's history is modelled as a graph over commit indices
//! `0 .. n`: entry `i` of the parent table lists the parents of commit `i`.
//! The commit count is the number of distinct commits reachable from the
//! head by following parent links, each commit counted once however many
//! paths lead to it.

use vstd::prelude::*;
use vstd::set_lib::lemma_int_range;
use vstd::set_lib::lemma_len_subset;
use vstd::set_lib::set_int_range;

verus! {

/// Every parent index points back into the graph.
pub open spec fn graph_wf(g: Seq<Seq<usize>>) -> bool {
    forall|m: int, j: int|
        #![trigger g[m][j]]
        0 <= m < g.len() && 0 <= j < g[m].len() ==> g[m][j] < g.len()
}

/// `node` is a declared parent of commit `m`.
pub open spec fn is_parent(g: Seq<Seq<usize>>, m: int, node: int) -> bool {
    exists|j: int| 0 <= j < g[m].len() && g[m][j] as int == node
}

/// `p` lists the commits of a walk from `head` to `node` that follows one
/// parent link at each step.
pub open spec fn is_path(g: Seq<Seq<usize>>, p: Seq<int>, head: int, node: int) -> bool {
    &&& p.len() >= 1
    &&& p[0] == head
    &&& p[p.len() - 1] == node
    &&& forall|i: int|
        0 <= i < p.len() - 1 ==> 0 <= #[trigger] p[i] < g.len() && is_parent(g, p[i], p[i + 1])
}

/// `node` is reachable from `head` by following parent links.
pub open spec fn reachable(g: Seq<Seq<usize>>, head: int, node: int) -> bool {
    exists|p: Seq<int>| is_path(g, p, head, node)
}

/// The distinct commits reachable from `head`.
pub open spec fn reach_set(g: Seq<Seq<usize>>, head: int) -> Set<int> {
    Set::new(|n: int| 0 <= n < g.len() && reachable(g, head, n))
}

/// The indices marked true.
pub open spec fn visited_set(v: Seq<bool>) -> Set<int> {
    Set::new(|i: int| 0 <= i < v.len() && v[i])
}

/// Every marked index is a reachable commit.
spec fn marks_sound(g: Seq<Seq<usize>>, head: int, v: Seq<bool>) -> bool {
    forall|m: int| 0 <= m < v.len() && v[m] ==> reachable(g, head, m)
}

/// Parents of marked commits are marked, except for commits named in `pending`.
spec fn marks_closed_except(g: Seq<Seq<usize>>, v: Seq<bool>, pending: Seq<usize>) -> bool {
    forall|m: int, j: int|
        #![trigger g[m][j]]
        0 <= m < g.len() && v[m] && !pending.contains(m as usize) && 0 <= j < g[m].len()
            ==> v[g[m][j] as int]
}

proof fn lemma_visited_set_finite(v: Seq<bool>)
    ensures
        visited_set(v).finite(),
        visited_set(v).len() <= v.len(),
{
    assert(visited_set(v).subset_of(set_int_range(0, v.len() as int)));
    lemma_int_range(0, v.len() as int);
    lemma_len_subset(visited_set(v), set_int_range(0, v.len() as int));
}

/// A parent of a reachable commit is itself reachable.
proof fn lemma_reach_step(g: Seq<Seq<usize>>, head: int, m: int, node: int)
    requires
        0 <= m < g.len(),
        reachable(g, head, m),
        is_parent(g, m, node),
    ensures
        reachable(g, head, node),
{
    let p = choose|p: Seq<int>| is_path(g, p, head, m);
    let p2 = p.push(node);
    assert(p2[p2.len() - 1] == node);
    assert forall|i: int| 0 <= i < p2.len() - 1 implies 0 <= #[trigger] p2[i] < g.len()
        && is_parent(g, p2[i], p2[i + 1]) by {
        if i < p.len() - 1 {
            assert(p2[i] == p[i] && p2[i + 1] == p[i + 1]);
        } else {
            assert(p2[i] == p[p.len() - 1] && p2[i + 1] == node);
        }
    }
    assert(is_path(g, p2, head, node));
}

/// Once the marks contain the head and are closed under parent links, they
/// cover every commit that a walk from `head` can end on.
proof fn lemma_closed_covers(g: Seq<Seq<usize>>, head: int, v: Seq<bool>, node: int, p: Seq<int>)
    requires
        graph_wf(g),
        v.len() == g.len(),
        0 <= head < g.len(),
        v[head],
        marks_closed_except(g, v, Seq::empty()),
        is_path(g, p, head, node),
        0 <= node < g.len(),
    ensures
        v[node],
    decreases p.len(),
{
    if p.len() > 1 {
        let prev = p[p.len() - 2];
        let p2 = p.drop_last();
        assert(p2[p2.len() - 1] == prev);
        assert(0 <= prev < g.len());
        lemma_closed_covers(g, head, v, prev, p2);
        assert(is_parent(g, prev, node));
        let j = choose|j: int| 0 <= j < g[prev].len() && g[prev][j] as int == node;
        assert(!Seq::<usize>::empty().contains(prev as usize));
        assert(v[g[prev][j] as int]);
    }
}

proof fn lemma_reach_set_finite(g: Seq<Seq<usize>>, head: int)
    ensures
        reach_set(g, head).finite(),
        reach_set(g, head).len() <= g.len(),
{
    assert(reach_set(g, head).subset_of(set_int_range(0, g.len() as int)));
    lemma_int_range(0, g.len() as int);
    lemma_len_subset(reach_set(g, head), set_int_range(0, g.len() as int));
}

/// Law: a merge commit joining two branches contributes the distinct union
/// of the branches plus itself: a commit shared by both branches — a common
/// ancestor — is counted once.
pub proof fn lemma_merge_counts_union(g: Seq<Seq<usize>>, head: usize, a: usize, b: usize)
    requires
        graph_wf(g),
        (head as int) < g.len(),
        g[head as int] == seq![a, b],
        !reach_set(g, a as int).contains(head as int),
        !reach_set(g, b as int).contains(head as int),
    ensures
        reach_set(g, head as int) =~= reach_set(g, a as int).union(reach_set(g, b as int)).insert(
            head as int,
        ),
        reach_set(g, head as int).len() == reach_set(g, a as int).union(
            reach_set(g, b as int),
        ).len() + 1,
{
    let ra = reach_set(g, a as int);
    let rb = reach_set(g, b as int);
    assert(g[head as int][0] == a && g[head as int][1] == b);
    assert(a < g.len() && b < g.len());

    // everything in either branch, and the head, is reachable from the head
    assert forall|n: int| ra.contains(n) || rb.contains(n) implies reach_set(
        g,
        head as int,
    ).contains(n) by {
        let root: int = if ra.contains(n) {
            a as int
        } else {
            b as int
        };
        let p = choose|p: Seq<int>| is_path(g, p, root, n);
        let p2 = seq![head as int] + p;
        assert(p2[0] == head as int && p2[p2.len() - 1] == n);
        assert forall|i: int| 0 <= i < p2.len() - 1 implies 0 <= #[trigger] p2[i] < g.len()
            && is_parent(g, p2[i], p2[i + 1]) by {
            if i == 0 {
                assert(p2[1] == p[0] == root);
                assert(g[head as int][0] as int == a as int);
                assert(g[head as int][1] as int == b as int);
                assert(is_parent(g, head as int, root));
            } else {
                assert(p2[i] == p[i - 1] && p2[i + 1] == p[i]);
            }
        }
        assert(is_path(g, p2, head as int, n));
    }
    assert(is_path(g, seq![head as int], head as int, head as int));

    // everything reachable from the head is the head or lies in a branch
    assert forall|n: int| reach_set(g, head as int).contains(n) && n != head as int implies
        ra.contains(n) || rb.contains(n) by {
        let p = choose|p: Seq<int>| is_path(g, p, head as int, n);
        assert(p.len() >= 2);
        assert(is_parent(g, p[0], p[1]));
        let j = choose|j: int| 0 <= j < g[head as int].len() && g[head as int][j] as int == p[1];
        assert(j == 0 || j == 1);
        let p2 = p.skip(1);
        assert(p2[0] == p[1] && p2[p2.len() - 1] == n);
        assert forall|i: int| 0 <= i < p2.len() - 1 implies 0 <= #[trigger] p2[i] < g.len()
            && is_parent(g, p2[i], p2[i + 1]) by {
            assert(p2[i] == p[i + 1] && p2[i + 1] == p[i + 2]);
        }
        assert(is_path(g, p2, p[1], n));
        assert(0 <= n < g.len());
    }

    assert(reach_set(g, head as int) =~= ra.union(rb).insert(head as int));
    lemma_reach_set_finite(g, a as int);
    lemma_reach_set_finite(g, b as int);
    assert(!ra.union(rb).contains(head as int));
    assert(ra.union(rb).insert(head as int).len() == ra.union(rb).len() + 1);
}

/// Law: a linear history of `n` commits — commit `i`'s one parent is commit
/// `i + 1`, the oldest has none — has exactly `n` commits reachable from the
/// head at index `0`.
pub proof fn lemma_linear_chain_count(g: Seq<Seq<usize>>)
    requires
        1 <= g.len() <= usize::MAX,
        forall|i: int| 0 <= i < g.len() - 1 ==> #[trigger] g[i] == seq![(i + 1) as usize],
        g[g.len() - 1] == Seq::<usize>::empty(),
    ensures
        reach_set(g, 0).len() == g.len(),
{
    assert forall|node: int| 0 <= node < g.len() implies reachable(g, 0, node) by {
        let p = Seq::new((node + 1) as nat, |t: int| t);
        assert(p[0] == 0 && p[p.len() - 1] == node);
        assert forall|i: int| 0 <= i < p.len() - 1 implies 0 <= #[trigger] p[i] < g.len()
            && is_parent(g, p[i], p[i + 1]) by {
            assert(p[i] == i && p[i + 1] == i + 1);
            assert(g[i] == seq![(i + 1) as usize]);
            assert(g[i][0] as int == i + 1);
        }
        assert(is_path(g, p, 0, node));
    }
    assert(reach_set(g, 0) =~= set_int_range(0, g.len() as int));
    lemma_int_range(0, g.len() as int);
}

/// Count the distinct commits reachable from `head`: the size of the set of
/// indices obtainable from `head` by following entries of the parent table.
pub fn count_reachable(parents: &Vec<Vec<usize>>, head: usize) -> (n: usize)
    requires
        graph_wf(parents.deep_view()),
        head < parents@.len(),
    ensures
        n == reach_set(parents.deep_view(), head as int).len(),
{
    let ghost g = parents.deep_view();
    proof {
        assert(g.len() == parents@.len());
    }
    let n_nodes = parents.len();
    let mut visited: Vec<bool> = Vec::new();
    let mut z: usize = 0;
    while z < n_nodes
        invariant
            z <= n_nodes,
            visited@.len() == z,
            forall|t: int| 0 <= t < z ==> !visited@[t],
        decreases n_nodes - z,
    {
        visited.push(false);
        z = z + 1;
    }
    let mut stack: Vec<usize> = Vec::new();
    let mut count: usize = 1;
    visited.set(head, true);
    stack.push(head);
    proof {
        assert(visited_set(visited@) =~= Set::<int>::empty().insert(head as int));
        assert(Set::<int>::empty().insert(head as int).len() == 1);
        assert(is_path(g, seq![head as int], head as int, head as int));
        assert(reachable(g, head as int, head as int));
        assert(stack@[0] == head);
        assert(stack@.contains(head));
    }
    while stack.len() > 0
        invariant
            g == parents.deep_view(),
            g.len() == parents@.len(),
            g.len() <= usize::MAX,
            visited@.len() == g.len(),
            head < g.len(),
            graph_wf(g),
            visited@[head as int],
            count == visited_set(visited@).len(),
            count <= g.len(),
            forall|t: int|
                0 <= t < stack@.len() ==> (#[trigger] stack@[t]) < g.len() && visited@[stack@[t] as int],
            marks_sound(g, head as int, visited@),
            marks_closed_except(g, visited@, stack@),
        decreases g.len() - count, stack@.len(),
    {
        let ghost stack0 = stack@;
        let ghost count0 = count;
        let t = stack.pop().unwrap();
        proof {
            assert(stack0[stack0.len() - 1] == t);
            assert(t < g.len() && visited@[t as int]);
            assert forall|x: usize| stack0.contains(x) && x != t implies stack@.contains(x) by {
                let idx = choose|idx: int| 0 <= idx < stack0.len() && stack0[idx] == x;
                assert(stack@[idx] == x);
            }
        }
        let row_len = parents[t].len();
        proof {
            assert(g[t as int] == parents@[t as int].deep_view());
            assert(parents@[t as int].deep_view() =~= parents@[t as int]@);
            assert(g[t as int].len() == row_len);
            assert forall|m: int, j2: int|
                #![trigger g[m][j2]]
                0 <= m < g.len() && visited@[m] && m != t as int && !stack@.contains(m as usize)
                    && 0 <= j2 < g[m].len() implies visited@[g[m][j2] as int] by {
                if stack0.contains(m as usize) {
                    let idx = choose|idx: int| 0 <= idx < stack0.len() && stack0[idx] == m as usize;
                    assert(idx < stack0.len() - 1);
                    assert(stack@[idx] == m as usize);
                    assert(stack@.contains(m as usize));
                }
            }
        }
        let mut j: usize = 0;
        while j < row_len
            invariant
                g == parents.deep_view(),
                g.len() == parents@.len(),
                g.len() <= usize::MAX,
                visited@.len() == g.len(),
                head < g.len(),
                graph_wf(g),
                visited@[head as int],
                t < g.len(),
                visited@[t as int],
                g[t as int] == parents@[t as int]@,
                row_len == g[t as int].len(),
                j <= row_len,
                stack0.len() >= 1,
                count0 <= count,
                count <= g.len(),
                count == visited_set(visited@).len(),
                stack@.len() + count0 == stack0.len() - 1 + count,
                forall|t2: int|
                    0 <= t2 < stack@.len() ==> (#[trigger] stack@[t2]) < g.len()
                        && visited@[stack@[t2] as int],
                marks_sound(g, head as int, visited@),
                forall|m: int, j2: int|
                    #![trigger g[m][j2]]
                    0 <= m < g.len() && visited@[m] && m != t as int && !stack@.contains(m as usize)
                        && 0 <= j2 < g[m].len() ==> visited@[g[m][j2] as int],
                forall|j2: int| 0 <= j2 < j ==> visited@[#[trigger] g[t as int][j2] as int],
            decreases row_len - j,
        {
            let p = parents[t][j];
            proof {
                assert(g[t as int][j as int] == p);
                assert(p < g.len());
            }
            if !visited[p] {
                let ghost v0 = visited@;
                let ghost st0 = stack@;
                visited.set(p, true);
                proof {
                    assert(visited_set(visited@) =~= visited_set(v0).insert(p as int));
                    lemma_visited_set_finite(v0);
                    assert(visited_set(v0).insert(p as int).len() == visited_set(v0).len() + 1);
                    lemma_visited_set_finite(visited@);
                    lemma_reach_step(g, head as int, t as int, p as int);
                }
                count = count + 1;
                stack.push(p);
                proof {
                    assert forall|x: usize| st0.contains(x) implies stack@.contains(x) by {
                        let idx = choose|idx: int| 0 <= idx < st0.len() && st0[idx] == x;
                        assert(stack@[idx] == x);
                    }
                    assert(stack@[stack@.len() - 1] == p);
                    assert(stack@.contains(p));
                }
            }
            j = j + 1;
        }
        proof {
            assert forall|m: int, j2: int|
                #![trigger g[m][j2]]
                0 <= m < g.len() && visited@[m] && !stack@.contains(m as usize) && 0 <= j2
                    < g[m].len() implies visited@[g[m][j2] as int] by {
                if m == t as int {
                    assert(visited@[g[t as int][j2] as int]);
                }
            }
            assert(marks_closed_except(g, visited@, stack@));
        }
    }
    proof {
        assert forall|x: usize| stack@.contains(x) implies false by {
            let idx = choose|idx: int| 0 <= idx < stack@.len() && stack@[idx] == x;
        }
        assert(marks_closed_except(g, visited@, Seq::empty()));
        assert forall|node: int| reach_set(g, head as int).contains(node) implies visited_set(
            visited@,
        ).contains(node) by {
            let p = choose|p: Seq<int>| is_path(g, p, head as int, node);
            lemma_closed_covers(g, head as int, visited@, node, p);
        }
        assert forall|node: int| visited_set(visited@).contains(node) implies reach_set(
            g,
            head as int,
        ).contains(node) by {
            assert(reachable(g, head as int, node));
        }
        assert(visited_set(visited@) =~= reach_set(g, head as int));
    }
    count
}

} // verus!

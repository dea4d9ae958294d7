//! Reachability over adjacency lists, and the flood fill that computes it.

use vstd::prelude::*;
use crate::labels::NodeId;

verus! {

/// The adjacency lists of `adj`, as sequences.
pub open spec fn rows(adj: &Vec<Vec<NodeId>>) -> Seq<Seq<NodeId>> {
    adj@.map_values(|r: Vec<NodeId>| r@)
}

/// `b` is listed among the neighbours of `a`.
pub open spec fn linked(g: Seq<Seq<NodeId>>, a: NodeId, b: NodeId) -> bool {
    (a as int) < g.len() && g[a as int].contains(b)
}

/// Every neighbour that `g` lists is a node of `g`.
pub open spec fn closed_lists(g: Seq<Seq<NodeId>>) -> bool {
    forall|a: int, j: int| 0 <= a < g.len() && 0 <= j < g[a].len() ==> (#[trigger] g[a][j] as int) < g.len()
}

/// Each step of `p` follows an edge of `g`.
pub open spec fn is_walk(g: Seq<Seq<NodeId>>, p: Seq<NodeId>) -> bool {
    forall|i: int| 0 <= i < p.len() - 1 ==> #[trigger] linked(g, p[i], p[i + 1])
}

/// Some walk of `g` leads from one of `seeds` to `n`.
pub open spec fn reachable(g: Seq<Seq<NodeId>>, seeds: Seq<NodeId>, n: NodeId) -> bool {
    exists|p: Seq<NodeId>| #[trigger] is_walk(g, p) && p.len() > 0 && seeds.contains(p[0]) && p.last() == n
}

/// How many entries of `s` are true.
pub open spec fn count_true(s: Seq<bool>) -> nat
    decreases s.len(),
{
    if s.len() == 0 {
        0
    } else {
        count_true(s.drop_last()) + if s.last() {
            1nat
        } else {
            0nat
        }
    }
}

proof fn lemma_count_bound(s: Seq<bool>)
    ensures
        count_true(s) <= s.len(),
    decreases s.len(),
{
    if s.len() > 0 {
        lemma_count_bound(s.drop_last());
    }
}

proof fn lemma_count_none(s: Seq<bool>)
    requires
        forall|i: int| 0 <= i < s.len() ==> !s[i],
    ensures
        count_true(s) == 0,
    decreases s.len(),
{
    if s.len() > 0 {
        lemma_count_none(s.drop_last());
    }
}

proof fn lemma_count_set(s: Seq<bool>, i: int)
    requires
        0 <= i < s.len(),
        !s[i],
    ensures
        count_true(s.update(i, true)) == count_true(s) + 1,
        count_true(s) < s.len(),
    decreases s.len(),
{
    let t = s.update(i, true);
    lemma_count_bound(s.drop_last());
    if i == s.len() - 1 {
        assert(t.drop_last() =~= s.drop_last());
    } else {
        assert(t.drop_last() =~= s.drop_last().update(i, true));
        lemma_count_set(s.drop_last(), i);
    }
}

/// A walk that starts in a set closed under the edges of `g` stays in it.
proof fn lemma_walk_stays(g: Seq<Seq<NodeId>>, vis: Seq<bool>, p: Seq<NodeId>)
    requires
        vis.len() == g.len(),
        closed_lists(g),
        forall|v: int, j: int|
            0 <= v < g.len() && vis[v] && 0 <= j < g[v].len() ==> vis[#[trigger] g[v][j] as int],
        is_walk(g, p),
        p.len() > 0,
        (p[0] as int) < g.len(),
        vis[p[0] as int],
    ensures
        (p.last() as int) < g.len(),
        vis[p.last() as int],
    decreases p.len(),
{
    if p.len() > 1 {
        let q = p.drop_last();
        assert forall|i: int| 0 <= i < q.len() - 1 implies #[trigger] linked(g, q[i], q[i + 1]) by {
            assert(linked(g, p[i], p[i + 1]));
        }
        lemma_walk_stays(g, vis, q);
        let i = p.len() - 2;
        let a = p[i];
        assert(linked(g, p[i], p[i + 1]));
        let j = choose|j: int| 0 <= j < g[a as int].len() && g[a as int][j] == p.last();
        assert(g[a as int][j] == p.last());
    }
}

/// Marks every node that some walk of `adj` reaches from one of `seeds`.
pub fn flood(adj: &Vec<Vec<NodeId>>, seeds: &Vec<NodeId>) -> (visited: Vec<bool>)
    requires
        closed_lists(rows(adj)),
        forall|k: int| 0 <= k < seeds@.len() ==> (#[trigger] seeds@[k] as int) < adj@.len(),
    ensures
        visited@.len() == adj@.len(),
        forall|v: int|
            0 <= v < adj@.len() ==> #[trigger] visited@[v] == reachable(rows(adj), seeds@, v as NodeId),
{
    let ghost g = rows(adj);
    let n = adj.len();
    let mut visited: Vec<bool> = Vec::new();
    let mut i: usize = 0;
    while i < n
        invariant
            n == adj@.len(),
            i <= n,
            visited@.len() == i,
            forall|v: int| 0 <= v < i ==> !visited@[v],
        decreases n - i,
    {
        visited.push(false);
        i = i + 1;
    }
    proof {
        lemma_count_none(visited@);
    }
    let mut count: usize = 0;
    let mut work: Vec<NodeId> = Vec::new();
    let mut k: usize = 0;
    while k < seeds.len()
        invariant
            g == rows(adj),
            n == adj@.len(),
            g.len() == n,
            closed_lists(g),
            forall|k: int| 0 <= k < seeds@.len() ==> (#[trigger] seeds@[k] as int) < n,
            k <= seeds@.len(),
            visited@.len() == n,
            count == count_true(visited@),
            forall|j: int| 0 <= j < work@.len() ==> (#[trigger] work@[j] as int) < n && visited@[work@[j] as int],
            forall|v: int| 0 <= v < n && #[trigger] visited@[v] ==> work@.contains(v as NodeId),
            forall|v: int| 0 <= v < n && #[trigger] visited@[v] ==> reachable(g, seeds@, v as NodeId),
            forall|j: int| 0 <= j < k ==> visited@[#[trigger] seeds@[j] as int],
        decreases seeds@.len() - k,
    {
        let s = seeds[k];
        if !visited[s] {
            proof {
                lemma_count_set(visited@, s as int);
                let p = seq![s];
                assert(is_walk(g, p));
                assert(seeds@[k as int] == s);
                assert(seeds@.contains(p[0]));
            }
            let ghost visited0 = visited@;
            visited.set(s, true);
            count = count + 1;
            let ghost work0 = work@;
            work.push(s);
            proof {
                assert forall|v: int| 0 <= v < n && #[trigger] visited@[v] implies work@.contains(v as NodeId) by {
                    if v != s as int {
                        assert(visited0[v]);
                        assert(work0.contains(v as NodeId));
                        let j = choose|j: int| 0 <= j < work0.len() && work0[j] == v as NodeId;
                        assert(work@[j] == v as NodeId);
                    } else {
                        assert(work@[work@.len() - 1] == s);
                    }
                }
            }
        }
        k = k + 1;
    }
    while work.len() > 0
        invariant
            g == rows(adj),
            n == adj@.len(),
            g.len() == n,
            closed_lists(g),
            forall|k: int| 0 <= k < seeds@.len() ==> (#[trigger] seeds@[k] as int) < n,
            visited@.len() == n,
            count == count_true(visited@),
            forall|j: int| 0 <= j < work@.len() ==> (#[trigger] work@[j] as int) < n && visited@[work@[j] as int],
            forall|v: int| 0 <= v < n && #[trigger] visited@[v] ==> reachable(g, seeds@, v as NodeId),
            forall|j: int| 0 <= j < seeds@.len() ==> visited@[#[trigger] seeds@[j] as int],
            forall|v: int, j: int|
                0 <= v < n && visited@[v] && !work@.contains(v as NodeId) && 0 <= j < g[v].len()
                    ==> visited@[#[trigger] g[v][j] as int],
        decreases 2 * (n - count) + work@.len(),
    {
        proof {
            lemma_count_bound(visited@);
        }
        let ghost measure = 2 * (n - count) + work@.len();
        let ghost work_before = work@;
        let node = work.pop().unwrap();
        assert(work_before == work@.push(node)) by {
            assert(work_before =~= work@.push(node));
        }
        let ghost work_popped = work@;
        let ghost pnode = choose|p: Seq<NodeId>| #[trigger] is_walk(g, p) && p.len() > 0 && seeds@.contains(p[0]) && p.last() == node;
        let row = &adj[node];
        assert(row@ == g[node as int]);
        let mut j: usize = 0;
        while j < row.len()
            invariant
                g == rows(adj),
                n == adj@.len(),
                g.len() == n,
                closed_lists(g),
                (node as int) < n,
                row@ == g[node as int],
                forall|k: int| 0 <= k < seeds@.len() ==> (#[trigger] seeds@[k] as int) < n,
                work_before == work_popped.push(node),
                work_popped.len() <= work@.len(),
                forall|t: int| 0 <= t < work_popped.len() ==> work@[t] == #[trigger] work_popped[t],
                j <= row@.len(),
                visited@.len() == n,
                count == count_true(visited@),
                count <= n,
                2 * (n - count) + work@.len() < measure,
                is_walk(g, pnode) && pnode.len() > 0 && seeds@.contains(pnode[0]) && pnode.last() == node,
                forall|jj: int| 0 <= jj < work@.len() ==> (#[trigger] work@[jj] as int) < n && visited@[work@[jj] as int],
                forall|v: int| 0 <= v < n && #[trigger] visited@[v] ==> reachable(g, seeds@, v as NodeId),
                forall|jj: int| 0 <= jj < seeds@.len() ==> visited@[#[trigger] seeds@[jj] as int],
                forall|jj: int| 0 <= jj < j ==> visited@[#[trigger] row@[jj] as int],
                forall|v: int, jj: int|
                    0 <= v < n && v != node as int && visited@[v] && !work@.contains(v as NodeId) && 0 <= jj < g[v].len()
                        ==> visited@[#[trigger] g[v][jj] as int],
            decreases row@.len() - j,
        {
            let w = row[j];
            assert((w as int) < n);
            if !visited[w] {
                proof {
                    lemma_count_set(visited@, w as int);
                    let p = pnode.push(w);
                    assert forall|i: int| 0 <= i < p.len() - 1 implies #[trigger] linked(g, p[i], p[i + 1]) by {
                        if i < pnode.len() - 1 {
                            assert(linked(g, pnode[i], pnode[i + 1]));
                        } else {
                            assert(row@[j as int] == w);
                        }
                    }
                    assert(p[0] == pnode[0]);
                    assert(is_walk(g, p));
                    assert(p.last() == w);
                }
                let ghost visited0 = visited@;
                visited.set(w, true);
                count = count + 1;
                let ghost work0 = work@;
                work.push(w);
                proof {
                    assert forall|v: int, jj: int|
                        0 <= v < n && v != node as int && visited@[v] && !work@.contains(v as NodeId) && 0 <= jj < g[v].len()
                            implies visited@[#[trigger] g[v][jj] as int] by {
                        assert(work@[work@.len() - 1] == w);
                        assert(v != w as int);
                        assert(visited0[v]);
                        if work0.contains(v as NodeId) {
                            let t = choose|t: int| 0 <= t < work0.len() && work0[t] == v as NodeId;
                            assert(work@[t] == v as NodeId);
                        }
                        assert(visited0[g[v][jj] as int]);
                    }
                    assert forall|v: int| 0 <= v < n && !work@.contains(v as NodeId) implies !#[trigger] work0.contains(v as NodeId) by {
                        if work0.contains(v as NodeId) {
                            let t = choose|t: int| 0 <= t < work0.len() && work0[t] == v as NodeId;
                            assert(work@[t] == v as NodeId);
                        }
                    }
                }
            }
            j = j + 1;
        }
        proof {
            assert forall|v: int| 0 <= v < n && !work@.contains(v as NodeId) && v != node as int implies !#[trigger] work_before.contains(v as NodeId) by {
                if work_before.contains(v as NodeId) {
                    let t = choose|t: int| 0 <= t < work_before.len() && work_before[t] == v as NodeId;
                    assert(t < work_popped.len());
                    assert(work@[t] == work_popped[t]);
                }
            }
        }
    }
    proof {
        assert forall|v: int| 0 <= v < n implies #[trigger] visited@[v] == reachable(g, seeds@, v as NodeId) by {
            if reachable(g, seeds@, v as NodeId) {
                let p = choose|p: Seq<NodeId>| #[trigger] is_walk(g, p) && p.len() > 0 && seeds@.contains(p[0]) && p.last() == v as NodeId;
                let k = choose|k: int| 0 <= k < seeds@.len() && seeds@[k] == p[0];
                assert(visited@[seeds@[k] as int]);
                lemma_walk_stays(g, visited@, p);
            }
        }
    }
    visited
}

} // verus!

use vstd::prelude::*;

use crate::graph::{GraphBuilder, count_true};
use crate::order::{Scored, insert_sorted, scored_less, scored_lt, strictly_sorted};
use crate::storage::InMemoryVectorStorage;

verus! {

proof fn lemma_count_true_le(s: Seq<bool>)
    ensures
        count_true(s) <= s.len(),
    decreases s.len(),
{
    if s.len() > 0 {
        lemma_count_true_le(s.drop_last());
    }
}

proof fn lemma_count_true_set(s: Seq<bool>, i: int)
    requires
        0 <= i < s.len(),
        !s[i],
    ensures
        count_true(s.update(i, true)) == count_true(s) + 1,
    decreases s.len(),
{
    let t = s.update(i, true);
    if i == s.len() - 1 {
        assert(t.drop_last() =~= s.drop_last());
    } else {
        assert(t.drop_last() =~= s.drop_last().update(i, true));
        lemma_count_true_set(s.drop_last(), i);
    }
}

/// `v` is one of the start nodes, or some adjacency list of `graph` holds it.
pub open spec fn reached(graph: GraphBuilder, start: Seq<u32>, v: u32) -> bool {
    start.contains(v) || graph.has_incoming(v as int)
}

/// Every neighbor of `v` in `graph` has been visited.
pub open spec fn expanded(graph: GraphBuilder, visited: Seq<bool>, v: u32) -> bool {
    forall|j: int| 0 <= j < graph.adj(v as int).len() ==> visited[(#[trigger] graph.adj(v as int)[j]) as int]
}

proof fn lemma_expanded_grows(graph: GraphBuilder, visited: Seq<bool>, e: int, v: u32)
    requires
        graph.wf(),
        v < graph.num_nodes(),
        visited.len() == graph.num_nodes(),
        0 <= e < visited.len(),
        expanded(graph, visited, v),
    ensures
        expanded(graph, visited.update(e, true), v),
{
    assert forall|j: int| 0 <= j < graph.adj(v as int).len() implies visited.update(e, true)[(#[trigger] graph.adj(
        v as int,
    )[j]) as int] by {
        assert(graph.adj(v as int)[j] < graph.num_nodes());
    }
}

/// `y` is in `r`, or `r` holds `k` entries that are all better than `y`.
pub open spec fn kept_or_beaten(r: Seq<Scored>, y: Scored, k: nat) -> bool {
    r.contains(y) || (r.len() == k && forall|a: int| 0 <= a < r.len() ==> scored_lt(#[trigger] r[a], y))
}

/// Keeps `x` among the at most `k` best entries of the sorted list `results`.
fn push_bounded(results: &mut Vec<Scored>, x: Scored, k: usize)
    requires
        strictly_sorted(old(results)@),
        0 < k,
        old(results)@.len() <= k,
        !old(results)@.contains(x),
    ensures
        strictly_sorted(final(results)@),
        final(results)@.len() == if old(results)@.len() < k { old(results)@.len() + 1 } else { k as nat },
        0 < final(results)@.len(),
        forall|y: Scored| #[trigger] final(results)@.contains(y) ==> y == x || old(results)@.contains(y),
        forall|y: Scored|
            (y == x || old(results)@.contains(y)) ==> #[trigger] kept_or_beaten(final(results)@, y, k as nat),
        old(results)@.len() == k && final(results)@.contains(x) ==> exists|z: Scored|
            #[trigger] old(results)@.contains(z) && scored_lt(x, z),
{
    let ghost before = results@;
    insert_sorted(results, x);
    if results.len() > k {
        let ghost full = results@;
        results.pop();
        let ghost p = full.last();
        assert(results@ == full.drop_last());
        assert forall|y: Scored| #[trigger] results@.contains(y) implies y == x || before.contains(y) by {
            let a = choose|a: int| 0 <= a < results@.len() && results@[a] == y;
            assert(full[a] == y);
            assert(full.contains(y));
        }
        assert forall|y: Scored| (y == x || before.contains(y)) implies #[trigger] kept_or_beaten(results@, y, k as nat) by {
            assert(full.contains(y));
            let a = choose|a: int| 0 <= a < full.len() && full[a] == y;
            if a < results@.len() {
                assert(results@[a] == y);
            } else {
                assert forall|b: int| 0 <= b < results@.len() implies scored_lt(#[trigger] results@[b], y) by {
                    assert(results@[b] == full[b]);
                }
            }
        }
        proof {
            if results@.contains(x) {
                let a = choose|a: int| 0 <= a < results@.len() && results@[a] == x;
                assert(full[a] == x);
                assert(full[full.len() - 1] == p);
                assert(full.contains(p));
                assert(scored_lt(x, p));
                assert(before.contains(p) || p == x);
            }
        }
    } else {
        assert forall|y: Scored| (y == x || before.contains(y)) implies #[trigger] kept_or_beaten(results@, y, k as nat) by {
            assert(results@.contains(y));
        }
    }
}

proof fn lemma_beaten_after_push(r0: Seq<Scored>, r1: Seq<Scored>, x: Scored, y: Scored, k: nat)
    requires
        kept_or_beaten(r0, y, k),
        forall|z: Scored| #[trigger] r1.contains(z) ==> z == x || r0.contains(z),
        forall|z: Scored| (z == x || r0.contains(z)) ==> #[trigger] kept_or_beaten(r1, z, k),
        r1.len() == if r0.len() < k { r0.len() + 1 } else { k },
        r0.len() == k && r1.contains(x) ==> exists|z: Scored| #[trigger] r0.contains(z) && scored_lt(x, z),
    ensures
        kept_or_beaten(r1, y, k),
{
    if !r0.contains(y) {
        assert forall|b: int| 0 <= b < r1.len() implies scored_lt(#[trigger] r1[b], y) by {
            assert(r1.contains(r1[b]));
            if r0.contains(r1[b]) {
                let a = choose|a: int| 0 <= a < r0.len() && r0[a] == r1[b];
                assert(scored_lt(r0[a], y));
            } else {
                let z = choose|z: Scored| #[trigger] r0.contains(z) && scored_lt(x, z);
                let a = choose|a: int| 0 <= a < r0.len() && r0[a] == z;
                assert(scored_lt(r0[a], y));
            }
        }
    }
}

proof fn lemma_beaten_by_full(r: Seq<Scored>, x: Scored, k: nat)
    requires
        strictly_sorted(r),
        r.len() == k,
        k > 0,
        !scored_lt(x, r[r.len() - 1]),
        x != r[r.len() - 1],
    ensures
        kept_or_beaten(r, x, k),
{
    assert forall|b: int| 0 <= b < r.len() implies scored_lt(#[trigger] r[b], x) by {
        if b < r.len() - 1 {
            assert(scored_lt(r[b], r[r.len() - 1]));
        }
    }
}

/// Greedy best-first search of `graph` from the nodes `start` towards node
/// `query`, keeping the `k` best nodes found. Returns them closest first,
/// each with its distance to `query`.
pub fn beam_search(
    graph: &GraphBuilder,
    storage: &InMemoryVectorStorage,
    start: &Vec<u32>,
    query: u32,
    k: usize,
) -> (r: Vec<Scored>)
    requires
        graph.wf(),
        storage.wf(),
        storage.spec_len() == graph.num_nodes(),
        query < storage.spec_len(),
        forall|a: int| 0 <= a < start@.len() ==> #[trigger] start@[a] < graph.num_nodes(),
    ensures
        r@.len() <= k,
        strictly_sorted(r@),
        r@.no_duplicates(),
        storage.scores_for(query as int, r@),
        0 < k && 0 < start@.len() ==> 0 < r@.len(),
        forall|a: int| 0 <= a < r@.len() ==> reached(*graph, start@, (#[trigger] r@[a]).1),
        forall|a: int, j: int|
            0 <= a < r@.len() && 0 <= j < graph.adj(r@[a].1 as int).len() ==> kept_or_beaten(
                r@,
                (
                    storage.dist(query as int, #[trigger] graph.adj(r@[a].1 as int)[j] as int),
                    graph.adj(r@[a].1 as int)[j],
                ),
                k as nat,
            ),
        forall|a: int|
            0 <= a < start@.len() ==> kept_or_beaten(
                r@,
                (storage.dist(query as int, #[trigger] start@[a] as int), start@[a]),
                k as nat,
            ),
{
    if k == 0 {
        return Vec::new();
    }
    let n = graph.present.len();
    let mut visited: Vec<bool> = Vec::new();
    let mut i: usize = 0;
    while i < n
        invariant
            0 <= i <= n,
            visited@.len() == i,
            forall|a: int| 0 <= a < i ==> !(#[trigger] visited@[a]),
        decreases n - i,
    {
        visited.push(false);
        i = i + 1;
    }
    let mut results: Vec<Scored> = Vec::new();
    let mut queue: Vec<Scored> = Vec::new();
    let mut i: usize = 0;
    while i < start.len()
        invariant
            0 <= i <= start@.len(),
            0 < k,
            n == graph.num_nodes(),
            graph.wf(),
            storage.wf(),
            storage.spec_len() == graph.num_nodes(),
            query < storage.spec_len(),
            forall|a: int| 0 <= a < start@.len() ==> #[trigger] start@[a] < graph.num_nodes(),
            visited@.len() == n,
            strictly_sorted(results@),
            strictly_sorted(queue@),
            results@.len() <= k,
            storage.scores_for(query as int, results@),
            storage.scores_for(query as int, queue@),
            forall|a: int| 0 <= a < results@.len() ==> reached(*graph, start@, (#[trigger] results@[a]).1),
            forall|a: int| 0 <= a < queue@.len() ==> reached(*graph, start@, (#[trigger] queue@[a]).1),
            forall|a: int| 0 <= a < results@.len() ==> visited@[(#[trigger] results@[a]).1 as int],
            forall|a: int| 0 <= a < queue@.len() ==> visited@[(#[trigger] queue@[a]).1 as int],
            i > 0 ==> results@.len() > 0,
            results@.len() == 0 ==> forall|a: int| 0 <= a < n ==> !(#[trigger] visited@[a]),
            forall|a: int| 0 <= a < i ==> visited@[#[trigger] start@[a] as int],
            forall|a: int| 0 <= a < start@.len() ==> #[trigger] start@[a] < n,
            forall|v: int|
                0 <= v < n && #[trigger] visited@[v] ==> kept_or_beaten(
                    results@,
                    (storage.dist(query as int, v), v as u32),
                    k as nat,
                ),
            forall|a: int| 0 <= a < results@.len() ==> queue@.contains(#[trigger] results@[a]),
        decreases start@.len() - i,
    {
        let s = start[i];
        if !visited[s as usize] {
            let d = storage.distance(query, s);
            let x: Scored = (d, s);
            assert(start@[i as int] == s);
            assert(reached(*graph, start@, s));
            proof {
                if results@.contains(x) {
                    let a = choose|a: int| 0 <= a < results@.len() && results@[a] == x;
                }
                if queue@.contains(x) {
                    let a = choose|a: int| 0 <= a < queue@.len() && queue@[a] == x;
                }
            }
            let ghost r0 = results@;
            let ghost q0 = queue@;
            let ghost v0 = visited@;
            visited.set(s as usize, true);
            push_bounded(&mut results, x, k);
            insert_sorted(&mut queue, x);
            proof {
                assert forall|a: int| 0 <= a < results@.len() implies queue@.contains(#[trigger] results@[a]) by {
                    assert(results@.contains(results@[a]));
                    if results@[a] != x {
                        let b = choose|b: int| 0 <= b < r0.len() && r0[b] == results@[a];
                        assert(q0.contains(r0[b]));
                    }
                }
                assert forall|v: int| 0 <= v < n && #[trigger] visited@[v] implies kept_or_beaten(
                    results@,
                    (storage.dist(query as int, v), v as u32),
                    k as nat,
                ) by {
                    let y = (storage.dist(query as int, v), v as u32);
                    if v != s {
                        assert(v0[v]);
                        lemma_beaten_after_push(r0, results@, x, y, k as nat);
                    }
                }
            }
            proof {
                assert forall|a: int| 0 <= a < results@.len() implies visited@[(#[trigger] results@[a]).1 as int]
                    && results@[a].1 < storage.spec_len() && results@[a].0 == storage.dist(query as int, results@[a].1 as int)
                    && reached(*graph, start@, results@[a].1) by {
                    assert(results@.contains(results@[a]));
                    if results@[a] != x {
                        let b = choose|b: int| 0 <= b < r0.len() && r0[b] == results@[a];
                    }
                }
                assert forall|a: int| 0 <= a < queue@.len() implies visited@[(#[trigger] queue@[a]).1 as int]
                    && queue@[a].1 < storage.spec_len() && queue@[a].0 == storage.dist(query as int, queue@[a].1 as int)
                    && reached(*graph, start@, queue@[a].1) by {
                    assert(queue@.contains(queue@[a]));
                    if queue@[a] != x {
                        let b = choose|b: int| 0 <= b < q0.len() && q0[b] == queue@[a];
                    }
                }
            }
        }
        i = i + 1;
    }
    let mut stop = false;
    while queue.len() > 0 && !stop
        invariant
            0 < k,
            n == graph.num_nodes(),
            graph.wf(),
            storage.wf(),
            storage.spec_len() == graph.num_nodes(),
            query < storage.spec_len(),
            visited@.len() == n,
            strictly_sorted(results@),
            strictly_sorted(queue@),
            results@.len() <= k,
            storage.scores_for(query as int, results@),
            storage.scores_for(query as int, queue@),
            forall|a: int| 0 <= a < results@.len() ==> reached(*graph, start@, (#[trigger] results@[a]).1),
            forall|a: int| 0 <= a < queue@.len() ==> reached(*graph, start@, (#[trigger] queue@[a]).1),
            forall|a: int| 0 <= a < results@.len() ==> visited@[(#[trigger] results@[a]).1 as int],
            forall|a: int| 0 <= a < queue@.len() ==> visited@[(#[trigger] queue@[a]).1 as int],
            0 < start@.len() ==> results@.len() > 0,
            forall|v: int|
                0 <= v < n && #[trigger] visited@[v] ==> kept_or_beaten(
                    results@,
                    (storage.dist(query as int, v), v as u32),
                    k as nat,
                ),
            forall|a: int| 0 <= a < start@.len() ==> visited@[#[trigger] start@[a] as int],
            forall|a: int| 0 <= a < start@.len() ==> #[trigger] start@[a] < n,
            forall|a: int|
                0 <= a < results@.len() ==> queue@.contains(#[trigger] results@[a]) || expanded(
                    *graph,
                    visited@,
                    results@[a].1,
                ),
            stop ==> forall|a: int| 0 <= a < results@.len() ==> expanded(*graph, visited@, (#[trigger] results@[a]).1),
        decreases (n - count_true(visited@)) + queue@.len(),
    {
        proof {
            lemma_count_true_le(visited@);
        }
        let ghost measure = (n - count_true(visited@)) + queue@.len();
        let ghost q_full = queue@;
        let c = queue.remove(0);
        assert(queue@ == q_full.remove(0));
        assert(c == q_full[0]);
        assert forall|a: int, b: int| 0 <= a < b < queue@.len() implies scored_lt(#[trigger] queue@[a], #[trigger] queue@[b]) by {
            assert(queue@[a] == q_full[a + 1] && queue@[b] == q_full[b + 1]);
        }
        assert forall|a: int| 0 <= a < queue@.len() implies visited@[(#[trigger] queue@[a]).1 as int]
            && queue@[a].1 < storage.spec_len() && queue@[a].0 == storage.dist(query as int, queue@[a].1 as int)
                    && reached(*graph, start@, queue@[a].1) by {
            assert(queue@[a] == q_full[a + 1]);
        }
        assert forall|a: int|
            0 <= a < results@.len() implies queue@.contains(#[trigger] results@[a]) || expanded(
                *graph,
                visited@,
                results@[a].1,
            ) || results@[a] == c by {
            let x = results@[a];
            if q_full.contains(x) {
                let b = choose|b: int| 0 <= b < q_full.len() && q_full[b] == x;
                if b > 0 {
                    assert(queue@[b - 1] == x);
                }
            }
        }
        if results.len() > 0 && scored_less(results[results.len() - 1], c) {
            stop = true;
            proof {
                let last = results@[results@.len() - 1];
                assert forall|a: int| 0 <= a < results@.len() implies expanded(*graph, visited@, (#[trigger] results@[a]).1) by {
                    let x = results@[a];
                    if a < results@.len() - 1 {
                        assert(scored_lt(x, last));
                    }
                    if q_full.contains(x) {
                        let b = choose|b: int| 0 <= b < q_full.len() && q_full[b] == x;
                        if b > 0 {
                            assert(scored_lt(q_full[0], q_full[b]));
                        }
                    }
                }
            }
        } else {
            let nbs = graph.neighbors(c.1);
            let mut j: usize = 0;
            while j < nbs.len()
                invariant
                    0 <= j <= nbs@.len(),
                    c.1 < graph.num_nodes(),
                    nbs@ == graph.adj(c.1 as int),
                    0 < k,
                    n == graph.num_nodes(),
                    graph.wf(),
                    storage.wf(),
                    storage.spec_len() == graph.num_nodes(),
                    query < storage.spec_len(),
                    visited@.len() == n,
                    strictly_sorted(results@),
                    strictly_sorted(queue@),
                    results@.len() <= k,
                    storage.scores_for(query as int, results@),
                    storage.scores_for(query as int, queue@),
                    forall|a: int| 0 <= a < results@.len() ==> reached(*graph, start@, (#[trigger] results@[a]).1),
                    forall|a: int| 0 <= a < queue@.len() ==> reached(*graph, start@, (#[trigger] queue@[a]).1),
                    forall|a: int| 0 <= a < results@.len() ==> visited@[(#[trigger] results@[a]).1 as int],
                    forall|a: int| 0 <= a < queue@.len() ==> visited@[(#[trigger] queue@[a]).1 as int],
                    0 < start@.len() ==> results@.len() > 0,
                    count_true(visited@) <= n,
                    (n - count_true(visited@)) + queue@.len() < measure,
                    forall|v: int|
                        0 <= v < n && #[trigger] visited@[v] ==> kept_or_beaten(
                            results@,
                            (storage.dist(query as int, v), v as u32),
                            k as nat,
                        ),
                    forall|a: int| 0 <= a < start@.len() ==> visited@[#[trigger] start@[a] as int],
                    forall|a: int| 0 <= a < start@.len() ==> #[trigger] start@[a] < n,
                    !stop,
                    forall|a: int|
                        0 <= a < results@.len() ==> queue@.contains(#[trigger] results@[a]) || expanded(
                            *graph,
                            visited@,
                            results@[a].1,
                        ) || results@[a] == c,
                    forall|jj: int| 0 <= jj < j ==> visited@[(#[trigger] nbs@[jj]) as int],
                decreases nbs@.len() - j,
            {
                let ghost vstart = visited@;
                let e = nbs[j];
                assert(graph.adj(c.1 as int)[j as int] < graph.num_nodes());
                if !visited[e as usize] {
                    let d = storage.distance(query, e);
                    let x: Scored = (d, e);
                    assert(graph.adj(c.1 as int)[j as int] == e);
                    assert(graph.adj(c.1 as int).contains(e));
                    assert(reached(*graph, start@, e));
                    proof {
                        if results@.contains(x) {
                            let a = choose|a: int| 0 <= a < results@.len() && results@[a] == x;
                        }
                        if queue@.contains(x) {
                            let a = choose|a: int| 0 <= a < queue@.len() && queue@[a] == x;
                        }
                        lemma_count_true_set(visited@, e as int);
                        lemma_count_true_le(visited@.update(e as int, true));
                    }
                    let ghost r0 = results@;
                    let ghost q0 = queue@;
                    let ghost v0 = visited@;
                    visited.set(e as usize, true);
                    if results.len() < k || scored_less(x, results[results.len() - 1]) {
                        push_bounded(&mut results, x, k);
                        insert_sorted(&mut queue, x);
                        proof {
                            assert forall|v: int| 0 <= v < n && #[trigger] visited@[v] implies kept_or_beaten(
                                results@,
                                (storage.dist(query as int, v), v as u32),
                                k as nat,
                            ) by {
                                let y = (storage.dist(query as int, v), v as u32);
                                if v != e {
                                    assert(v0[v]);
                                    lemma_beaten_after_push(r0, results@, x, y, k as nat);
                                }
                            }
                        }
                    } else {
                        proof {
                            let last = results@[results@.len() - 1];
                            assert(v0[last.1 as int]);
                            lemma_beaten_by_full(results@, x, k as nat);
                            assert forall|v: int| 0 <= v < n && #[trigger] visited@[v] implies kept_or_beaten(
                                results@,
                                (storage.dist(query as int, v), v as u32),
                                k as nat,
                            ) by {
                                if v != e {
                                    assert(v0[v]);
                                }
                            }
                        }
                    }
                    proof {
                        assert forall|a: int| 0 <= a < results@.len() implies visited@[(#[trigger] results@[a]).1 as int]
                            && results@[a].1 < storage.spec_len() && results@[a].0 == storage.dist(query as int, results@[a].1 as int)
                        && reached(*graph, start@, results@[a].1) by {
                            assert(results@.contains(results@[a]));
                            if results@[a] != x {
                                let b = choose|b: int| 0 <= b < r0.len() && r0[b] == results@[a];
                            }
                        }
                        assert forall|a: int| 0 <= a < queue@.len() implies visited@[(#[trigger] queue@[a]).1 as int]
                            && queue@[a].1 < storage.spec_len() && queue@[a].0 == storage.dist(query as int, queue@[a].1 as int)
                        && reached(*graph, start@, queue@[a].1) by {
                            assert(queue@.contains(queue@[a]));
                            if queue@[a] != x {
                                let b = choose|b: int| 0 <= b < q0.len() && q0[b] == queue@[a];
                            }
                        }
                        assert forall|a: int|
                            0 <= a < results@.len() implies queue@.contains(#[trigger] results@[a]) || expanded(
                                *graph,
                                visited@,
                                results@[a].1,
                            ) || results@[a] == c by {
                            let x2 = results@[a];
                            assert(results@.contains(x2));
                            if x2 != x {
                                let b = choose|b: int| 0 <= b < r0.len() && r0[b] == x2;
                                if !q0.contains(x2) && x2 != c {
                                    assert(expanded(*graph, v0, x2.1));
                                    lemma_expanded_grows(*graph, v0, e as int, x2.1);
                                }
                            }
                        }
                    }
                }
                proof {
                    assert forall|jj: int| 0 <= jj < j + 1 implies visited@[(#[trigger] nbs@[jj]) as int] by {
                        assert(graph.adj(c.1 as int)[jj] < graph.num_nodes());
                        if jj < j {
                            assert(vstart[nbs@[jj] as int]);
                        }
                    }
                }
                j = j + 1;
            }
            proof {
                assert(expanded(*graph, visited@, c.1)) by {
                    assert forall|jj: int| 0 <= jj < graph.adj(c.1 as int).len() implies visited@[(#[trigger] graph.adj(c.1 as int)[jj]) as int] by {
                        assert(nbs@[jj] == graph.adj(c.1 as int)[jj]);
                    }
                }
            }
        }
    }
    assert forall|a: int, b: int| 0 <= a < b < results@.len() implies results@[a] != results@[b] by {
        assert(scored_lt(results@[a], results@[b]));
    }
    assert forall|a: int, j: int|
        0 <= a < results@.len() && 0 <= j < graph.adj(results@[a].1 as int).len() implies kept_or_beaten(
            results@,
            (
                storage.dist(query as int, #[trigger] graph.adj(results@[a].1 as int)[j] as int),
                graph.adj(results@[a].1 as int)[j],
            ),
            k as nat,
        ) by {
        let v = graph.adj(results@[a].1 as int)[j];
        if !stop {
            assert(queue@.len() == 0);
            assert(!queue@.contains(results@[a]));
        }
        assert(expanded(*graph, visited@, results@[a].1));
        assert(visited@[v as int]);
        assert(v < n);
    }
    results
}

} // verus!

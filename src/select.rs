use vstd::prelude::*;

use crate::graph::GraphBuilder;
use crate::order::{Scored, scored_lt, sort_scored, strictly_sorted};
use crate::storage::InMemoryVectorStorage;

verus! {

/// The `k` closest candidates, ties broken by id, closest first.
pub fn select_neighbors(candidates: &Vec<Scored>, k: usize) -> (r: Vec<Scored>)
    requires
        candidates@.no_duplicates(),
    ensures
        r@.len() == if k <= candidates@.len() { k as nat } else { candidates@.len() },
        strictly_sorted(r@),
        forall|x: Scored| #[trigger] r@.contains(x) ==> candidates@.contains(x),
        forall|x: Scored, y: Scored|
            #[trigger] r@.contains(x) && #[trigger] candidates@.contains(y) && !r@.contains(y)
                ==> scored_lt(x, y),
{
    let sorted = sort_scored(candidates);
    let mut r: Vec<Scored> = Vec::new();
    let mut i: usize = 0;
    while i < k && i < sorted.len()
        invariant
            0 <= i <= sorted@.len(),
            i <= k,
            strictly_sorted(sorted@),
            r@ == sorted@.subrange(0, i as int),
        decreases sorted@.len() - i,
    {
        r.push(sorted[i]);
        i = i + 1;
    }
    proof {
        assert forall|x: Scored, y: Scored|
            #[trigger] r@.contains(x) && #[trigger] candidates@.contains(y) && !r@.contains(y)
                implies scored_lt(x, y) by {
            let a = choose|a: int| 0 <= a < r@.len() && r@[a] == x;
            assert(sorted@.contains(y));
            let b = choose|b: int| 0 <= b < sorted@.len() && sorted@[b] == y;
            if b < i {
                assert(r@[b] == y);
            }
            assert(sorted@[a] == x);
        }
        assert forall|x: Scored| #[trigger] r@.contains(x) implies candidates@.contains(x) by {
            let a = choose|a: int| 0 <= a < r@.len() && r@[a] == x;
            assert(sorted@[a] == x);
            assert(sorted@.contains(x));
        }
    }
    r
}

/// `x` is one of the candidates, or, when `extend` is set, a neighbor in
/// `graph` of one of them, scored by its distance to `q`.
pub open spec fn in_pool(
    graph: GraphBuilder,
    storage: InMemoryVectorStorage,
    q: int,
    candidates: Seq<Scored>,
    extend: bool,
    x: Scored,
) -> bool {
    ||| candidates.contains(x)
    ||| (extend && x.1 < storage.spec_len() && x.0 == storage.dist(q, x.1 as int) && exists|c: Scored|
        #[trigger] candidates.contains(c) && c.1 < graph.num_nodes() && graph.adj(c.1 as int).contains(x.1))
}

/// Some entry of `s` has id `e`.
pub open spec fn holds_id(s: Seq<Scored>, e: u32) -> bool {
    exists|a: int| 0 <= a < s.len() && (#[trigger] s[a]).1 == e
}

proof fn lemma_holds_id_push(s: Seq<Scored>, x: Scored, e: u32)
    requires
        holds_id(s, e),
    ensures
        holds_id(s.push(x), e),
{
    let a = choose|a: int| 0 <= a < s.len() && (#[trigger] s[a]).1 == e;
    assert(s.push(x)[a] == s[a]);
}

/// `x` is closer to the query (its distance `x.0`) than to every node in `chosen`.
pub open spec fn diverse(storage: InMemoryVectorStorage, x: Scored, chosen: Seq<Scored>) -> bool {
    forall|a: int| 0 <= a < chosen.len() ==> x.0 < storage.dist(x.1 as int, (#[trigger] chosen[a]).1 as int)
}

/// One pass over the sorted pool `s`: each entry, while fewer than `k` are
/// accepted, is accepted when diverse from those accepted before it and
/// rejected otherwise. Returns the accepted and the rejected, in order.
pub open spec fn split_pool(storage: InMemoryVectorStorage, s: Seq<Scored>, k: nat) -> (Seq<Scored>, Seq<Scored>)
    decreases s.len(),
{
    if s.len() == 0 {
        (Seq::empty(), Seq::empty())
    } else {
        let (acc, rej) = split_pool(storage, s.drop_last(), k);
        if acc.len() >= k {
            (acc, rej)
        } else if diverse(storage, s.last(), acc) {
            (acc.push(s.last()), rej)
        } else {
            (acc, rej.push(s.last()))
        }
    }
}

/// The heuristic's choice from the sorted pool `s`: the accepted entries,
/// then the closest rejected ones until there are `k`.
pub open spec fn heuristic_choice(storage: InMemoryVectorStorage, s: Seq<Scored>, k: nat) -> Seq<Scored> {
    let (acc, rej) = split_pool(storage, s, k);
    let fill = if k - acc.len() <= rej.len() { (k - acc.len()) as int } else { rej.len() as int };
    acc + rej.subrange(0, fill)
}

proof fn lemma_split_pool_full(storage: InMemoryVectorStorage, s: Seq<Scored>, k: nat, i: int)
    requires
        0 <= i <= s.len(),
        split_pool(storage, s.subrange(0, i), k).0.len() >= k,
    ensures
        split_pool(storage, s, k) == split_pool(storage, s.subrange(0, i), k),
    decreases s.len() - i,
{
    if i < s.len() {
        assert(s.subrange(0, i + 1).drop_last() =~= s.subrange(0, i));
        lemma_split_pool_full(storage, s, k, i + 1);
    } else {
        assert(s.subrange(0, i) =~= s);
    }
}

/// Whether `x` is closer to the query than to every node in `chosen`.
fn is_diverse(storage: &InMemoryVectorStorage, x: Scored, chosen: &Vec<Scored>) -> (r: bool)
    requires
        storage.wf(),
        x.1 < storage.spec_len(),
        forall|a: int| 0 <= a < chosen@.len() ==> (#[trigger] chosen@[a]).1 < storage.spec_len(),
    ensures
        r == diverse(*storage, x, chosen@),
{
    let mut i: usize = 0;
    while i < chosen.len()
        invariant
            0 <= i <= chosen@.len(),
            storage.wf(),
            x.1 < storage.spec_len(),
            forall|a: int| 0 <= a < chosen@.len() ==> (#[trigger] chosen@[a]).1 < storage.spec_len(),
            forall|a: int| 0 <= a < i ==> x.0 < storage.dist(x.1 as int, (#[trigger] chosen@[a]).1 as int),
        decreases chosen@.len() - i,
    {
        if !(x.0 < storage.distance(x.1, chosen[i].1)) {
            return false;
        }
        i = i + 1;
    }
    true
}

/// Whether some entry of `pool` has id `id`.
fn has_id(pool: &Vec<Scored>, id: u32) -> (r: bool)
    ensures
        r == exists|a: int| 0 <= a < pool@.len() && (#[trigger] pool@[a]).1 == id,
{
    let mut i: usize = 0;
    while i < pool.len()
        invariant
            0 <= i <= pool@.len(),
            forall|a: int| 0 <= a < i ==> (#[trigger] pool@[a]).1 != id,
        decreases pool@.len() - i,
    {
        if pool[i].1 == id {
            return true;
        }
        i = i + 1;
    }
    false
}

/// The candidates, and with `extend` also their neighbors in `graph` that
/// are not among them yet, each once.
fn candidate_pool(
    graph: &GraphBuilder,
    storage: &InMemoryVectorStorage,
    query: u32,
    candidates: &Vec<Scored>,
    extend: bool,
) -> (r: Vec<Scored>)
    requires
        graph.wf(),
        storage.wf(),
        storage.spec_len() == graph.num_nodes(),
        query < storage.spec_len(),
        storage.scores_for(query as int, candidates@),
        candidates@.no_duplicates(),
    ensures
        r@.no_duplicates(),
        storage.scores_for(query as int, r@),
        forall|x: Scored| #[trigger] r@.contains(x) ==> in_pool(*graph, *storage, query as int, candidates@, extend, x),
        forall|x: Scored| #[trigger] candidates@.contains(x) ==> r@.contains(x),
        forall|x: Scored| in_pool(*graph, *storage, query as int, candidates@, extend, x) ==> #[trigger] r@.contains(x),
{
    let mut pool: Vec<Scored> = Vec::new();
    let mut i: usize = 0;
    while i < candidates.len()
        invariant
            0 <= i <= candidates@.len(),
            candidates@.no_duplicates(),
            pool@ == candidates@.subrange(0, i as int),
        decreases candidates@.len() - i,
    {
        pool.push(candidates[i]);
        i = i + 1;
    }
    assert(pool@ =~= candidates@);
    assert forall|a: int, b: int| 0 <= a < b < pool@.len() implies (#[trigger] pool@[a]).1 != (#[trigger] pool@[b]).1 by {
        assert(pool@[a] != pool@[b]);
    }
    if extend {
        let mut i: usize = 0;
        while i < candidates.len()
            invariant
                0 <= i <= candidates@.len(),
                graph.wf(),
                storage.wf(),
                storage.spec_len() == graph.num_nodes(),
                query < storage.spec_len(),
                extend,
                storage.scores_for(query as int, candidates@),
                storage.scores_for(query as int, pool@),
                forall|a: int, b: int| 0 <= a < b < pool@.len() ==> (#[trigger] pool@[a]).1 != (#[trigger] pool@[b]).1,
                forall|x: Scored| #[trigger] pool@.contains(x) ==> in_pool(*graph, *storage, query as int, candidates@, extend, x),
                forall|x: Scored| #[trigger] candidates@.contains(x) ==> pool@.contains(x),
                forall|ci: int, e: u32|
                    0 <= ci < i && #[trigger] graph.adj(candidates@[ci].1 as int).contains(e) ==> holds_id(pool@, e),
            decreases candidates@.len() - i,
        {
            let c = candidates[i].1;
            assert(candidates@.contains(candidates@[i as int]));
            let nbs = graph.neighbors(c);
            let mut j: usize = 0;
            while j < nbs.len()
                invariant
                    0 <= j <= nbs@.len(),
                    i < candidates@.len(),
                    c == candidates@[i as int].1,
                    candidates@.contains(candidates@[i as int]),
                    c < graph.num_nodes(),
                    nbs@ == graph.adj(c as int),
                    graph.wf(),
                    storage.wf(),
                    storage.spec_len() == graph.num_nodes(),
                    query < storage.spec_len(),
                    extend,
                    storage.scores_for(query as int, pool@),
                    forall|a: int, b: int| 0 <= a < b < pool@.len() ==> (#[trigger] pool@[a]).1 != (#[trigger] pool@[b]).1,
                    forall|x: Scored| #[trigger] pool@.contains(x) ==> in_pool(*graph, *storage, query as int, candidates@, extend, x),
                    forall|x: Scored| #[trigger] candidates@.contains(x) ==> pool@.contains(x),
                forall|ci: int, e: u32|
                    0 <= ci < i && #[trigger] graph.adj(candidates@[ci].1 as int).contains(e) ==> holds_id(pool@, e),
                forall|jj: int| 0 <= jj < j ==> holds_id(pool@, #[trigger] nbs@[jj]),
                decreases nbs@.len() - j,
            {
                let e = nbs[j];
                assert(graph.adj(c as int)[j as int] < graph.num_nodes());
                if !has_id(&pool, e) {
                    let d = storage.distance(query, e);
                    let ghost before = pool@;
                    pool.push((d, e));
                    proof {
                        assert(pool@[before.len() as int].1 == e);
                        assert forall|ci: int, e2: u32|
                            0 <= ci < i && #[trigger] graph.adj(candidates@[ci].1 as int).contains(e2) implies holds_id(pool@, e2) by {
                            lemma_holds_id_push(before, (d, e), e2);
                        }
                        assert forall|jj: int| 0 <= jj < j + 1 implies holds_id(pool@, #[trigger] nbs@[jj]) by {
                            if jj < j {
                                lemma_holds_id_push(before, (d, e), nbs@[jj]);
                            }
                        }
                        assert(graph.adj(c as int).contains(e));
                        assert forall|x: Scored| #[trigger] pool@.contains(x) implies in_pool(*graph, *storage, query as int, candidates@, extend, x) by {
                            if x != (d, e) {
                                let a = choose|a: int| 0 <= a < pool@.len() && pool@[a] == x;
                                assert(before[a] == x);
                                assert(before.contains(x));
                            }
                        }
                        assert forall|x: Scored| #[trigger] candidates@.contains(x) implies pool@.contains(x) by {
                            assert(before.contains(x));
                            let a = choose|a: int| 0 <= a < before.len() && before[a] == x;
                            assert(pool@[a] == x);
                        }
                        assert forall|a: int, b: int| 0 <= a < b < pool@.len() implies (#[trigger] pool@[a]).1 != (#[trigger] pool@[b]).1 by {
                            if b == before.len() {
                                assert(before[a].1 != e);
                            } else {
                                assert(before[a] == pool@[a] && before[b] == pool@[b]);
                            }
                        }
                    }
                }
                j = j + 1;
            }
            assert forall|ci: int, e2: u32|
                0 <= ci < i + 1 && #[trigger] graph.adj(candidates@[ci].1 as int).contains(e2) implies holds_id(pool@, e2) by {
                if ci == i {
                    let jj = choose|jj: int| 0 <= jj < nbs@.len() && nbs@[jj] == e2;
                }
            }
            i = i + 1;
        }
    }
    assert forall|x: Scored| in_pool(*graph, *storage, query as int, candidates@, extend, x) implies #[trigger] pool@.contains(x) by {
        if !candidates@.contains(x) {
            let c = choose|c: Scored| #[trigger] candidates@.contains(c) && c.1 < graph.num_nodes() && graph.adj(c.1 as int).contains(x.1);
            let ci = choose|ci: int| 0 <= ci < candidates@.len() && candidates@[ci] == c;
            assert(graph.adj(candidates@[ci].1 as int).contains(x.1));
            let a = choose|a: int| 0 <= a < pool@.len() && (#[trigger] pool@[a]).1 == x.1;
            assert(pool@[a] == x);
        }
    }
    assert forall|a: int, b: int| 0 <= a < b < pool@.len() implies pool@[a] != pool@[b] by {
        assert(pool@[a].1 != pool@[b].1);
    }
    pool
}

/// Diversity-aware selection: candidates are taken closest first, and one is
/// accepted when it is closer to node `query` than to every node accepted
/// before it, until `k` are accepted. With `extend`, the neighbors of the
/// candidates in `graph` join the pool first. When fewer than `k` were
/// accepted, the closest rejected ones fill the result up to `k`.
pub fn select_neighbors_heuristic(
    graph: &GraphBuilder,
    storage: &InMemoryVectorStorage,
    query: u32,
    candidates: &Vec<Scored>,
    k: usize,
    extend: bool,
) -> (r: Vec<Scored>)
    requires
        graph.wf(),
        storage.wf(),
        storage.spec_len() == graph.num_nodes(),
        query < storage.spec_len(),
        storage.scores_for(query as int, candidates@),
        candidates@.no_duplicates(),
    ensures
        r@.len() <= k,
        r@.no_duplicates(),
        storage.scores_for(query as int, r@),
        forall|x: Scored| #[trigger] r@.contains(x) ==> in_pool(*graph, *storage, query as int, candidates@, extend, x),
        r@.len() < k ==> forall|x: Scored| #[trigger] candidates@.contains(x) ==> r@.contains(x),
        exists|s: Seq<Scored>|
            strictly_sorted(s) && (forall|x: Scored| #[trigger] s.contains(x) <==> in_pool(
                *graph,
                *storage,
                query as int,
                candidates@,
                extend,
                x,
            )) && r@ == #[trigger] heuristic_choice(*storage, s, k as nat),
{
    let pool = candidate_pool(graph, storage, query, candidates, extend);
    let sorted = sort_scored(&pool);
    assert forall|b: int| 0 <= b < sorted@.len() implies (#[trigger] sorted@[b]).1 < storage.spec_len()
        && sorted@[b].0 == storage.dist(query as int, sorted@[b].1 as int) by {
        assert(sorted@.contains(sorted@[b]));
        let a = choose|a: int| 0 <= a < pool@.len() && pool@[a] == sorted@[b];
    }
    let mut accepted: Vec<Scored> = Vec::new();
    let mut rejected: Vec<Scored> = Vec::new();
    let mut i: usize = 0;
    while i < sorted.len() && accepted.len() < k
        invariant
            0 <= i <= sorted@.len(),
            storage.wf(),
            accepted@.len() <= k,
            accepted@.len() + rejected@.len() == i,
            strictly_sorted(sorted@),
            storage.scores_for(query as int, sorted@),
            forall|a: int| 0 <= a < accepted@.len() ==> exists|b: int| 0 <= b < i && #[trigger] accepted@[a] == sorted@[b],
            forall|a: int| 0 <= a < rejected@.len() ==> exists|b: int| 0 <= b < i && #[trigger] rejected@[a] == sorted@[b],
            forall|b: int| 0 <= b < i ==> accepted@.contains(#[trigger] sorted@[b]) || rejected@.contains(sorted@[b]),
            forall|a: int, b: int| 0 <= a < accepted@.len() && 0 <= b < rejected@.len() ==> #[trigger] accepted@[a] != #[trigger] rejected@[b],
            accepted@.no_duplicates(),
            rejected@.no_duplicates(),
            storage.scores_for(query as int, accepted@),
            (accepted@, rejected@) == split_pool(*storage, sorted@.subrange(0, i as int), k as nat),
        decreases sorted@.len() - i,
    {
        let x = sorted[i];
        proof {
            assert forall|a: int| 0 <= a < accepted@.len() implies (#[trigger] accepted@[a]).1 < storage.spec_len() by {}
            assert forall|a: int| 0 <= a < accepted@.len() implies #[trigger] accepted@[a] != x by {
                let b = choose|b: int| 0 <= b < i && accepted@[a] == sorted@[b];
                assert(scored_lt(sorted@[b], sorted@[i as int]));
            }
            assert forall|a: int| 0 <= a < rejected@.len() implies #[trigger] rejected@[a] != x by {
                let b = choose|b: int| 0 <= b < i && rejected@[a] == sorted@[b];
                assert(scored_lt(sorted@[b], sorted@[i as int]));
            }
        }
        let ghost acc0 = accepted@;
        let ghost rej0 = rejected@;
        assert(sorted@.subrange(0, i + 1).drop_last() =~= sorted@.subrange(0, i as int));
        assert(sorted@.subrange(0, i + 1).last() == x);
        if is_diverse(storage, x, &accepted) {
            accepted.push(x);
        } else {
            rejected.push(x);
        }
        proof {
            assert forall|a: int| 0 <= a < accepted@.len() implies exists|b: int| 0 <= b < i + 1 && #[trigger] accepted@[a] == sorted@[b] by {
                if a < acc0.len() {
                    assert(accepted@[a] == acc0[a]);
                    let b = choose|b: int| 0 <= b < i && acc0[a] == sorted@[b];
                } else {
                    assert(accepted@[a] == sorted@[i as int]);
                }
            }
            assert forall|a: int| 0 <= a < rejected@.len() implies exists|b: int| 0 <= b < i + 1 && #[trigger] rejected@[a] == sorted@[b] by {
                if a < rej0.len() {
                    assert(rejected@[a] == rej0[a]);
                    let b = choose|b: int| 0 <= b < i && rej0[a] == sorted@[b];
                } else {
                    assert(rejected@[a] == sorted@[i as int]);
                }
            }
            assert forall|b: int| 0 <= b < i + 1 implies accepted@.contains(#[trigger] sorted@[b]) || rejected@.contains(sorted@[b]) by {
                if b < i {
                    if acc0.contains(sorted@[b]) {
                        let a = choose|a: int| 0 <= a < acc0.len() && acc0[a] == sorted@[b];
                        assert(accepted@[a] == sorted@[b]);
                    } else {
                        let a = choose|a: int| 0 <= a < rej0.len() && rej0[a] == sorted@[b];
                        assert(rejected@[a] == sorted@[b]);
                    }
                } else if accepted@.len() > acc0.len() {
                    assert(accepted@[acc0.len() as int] == sorted@[b]);
                } else {
                    assert(rejected@[rej0.len() as int] == sorted@[b]);
                }
            }
            assert forall|a: int, b: int| 0 <= a < accepted@.len() && 0 <= b < rejected@.len() implies #[trigger] accepted@[a] != #[trigger] rejected@[b] by {
                if a < acc0.len() && b < rej0.len() {
                    assert(accepted@[a] == acc0[a] && rejected@[b] == rej0[b]);
                } else if a < acc0.len() {
                    assert(accepted@[a] == acc0[a]);
                } else {
                    assert(rejected@[b] == rej0[b]);
                }
            }
        }
        i = i + 1;
    }
    proof {
        if i == sorted@.len() {
            assert(sorted@.subrange(0, i as int) =~= sorted@);
        } else {
            lemma_split_pool_full(*storage, sorted@, k as nat, i as int);
        }
    }
    let mut r = accepted;
    let mut j: usize = 0;
    while j < rejected.len() && r.len() < k
        invariant
            0 <= j <= rejected@.len(),
            r@.len() <= k,
            r@.len() == accepted@.len() + j,
            r@.subrange(0, accepted@.len() as int) == accepted@,
            forall|a: int| 0 <= a < j ==> r@[accepted@.len() + a] == #[trigger] rejected@[a],
        decreases rejected@.len() - j,
    {
        r.push(rejected[j]);
        j = j + 1;
    }
    proof {
        let na = accepted@.len() as int;
        assert(r@ =~= accepted@ + rejected@.subrange(0, j as int)) by {
            assert forall|a: int| 0 <= a < r@.len() implies r@[a] == (accepted@ + rejected@.subrange(0, j as int))[a] by {
                if a < na {
                    assert(r@[a] == r@.subrange(0, na)[a]);
                }
            }
        }
        assert(r@ == heuristic_choice(*storage, sorted@, k as nat));
        assert forall|x: Scored| #[trigger] sorted@.contains(x) <==> in_pool(*graph, *storage, query as int, candidates@, extend, x) by {
            if in_pool(*graph, *storage, query as int, candidates@, extend, x) {
                assert(pool@.contains(x));
            }
        }
        assert forall|a: int| 0 <= a < r@.len() implies (exists|b: int| 0 <= b < sorted@.len() && #[trigger] r@[a] == sorted@[b]) by {
            if a < na {
                assert(r@[a] == r@.subrange(0, na)[a]);
                assert(r@[a] == accepted@[a]);
            } else {
                assert(r@[a] == rejected@[a - na]);
            }
        }
        assert forall|a: int| 0 <= a < r@.len() implies (#[trigger] r@[a]).1 < storage.spec_len() && r@[a].0 == storage.dist(query as int, r@[a].1 as int) && in_pool(*graph, *storage, query as int, candidates@, extend, r@[a]) by {
            let b = choose|b: int| 0 <= b < sorted@.len() && r@[a] == sorted@[b];
            assert(sorted@.contains(sorted@[b]));
            assert(pool@.contains(sorted@[b]));
        }
        assert forall|x: Scored| #[trigger] r@.contains(x) implies in_pool(*graph, *storage, query as int, candidates@, extend, x) by {
            let a = choose|a: int| 0 <= a < r@.len() && r@[a] == x;
        }
        assert forall|a: int, b: int| 0 <= a < b < r@.len() implies r@[a] != r@[b] by {
            if b < na {
                assert(r@[a] == accepted@[a] && r@[b] == accepted@[b]);
            } else if a < na {
                assert(r@[a] == accepted@[a] && r@[b] == rejected@[b - na]);
            } else {
                assert(r@[a] == rejected@[a - na] && r@[b] == rejected@[b - na]);
            }
        }
        if r@.len() < k {
            assert forall|x: Scored| #[trigger] candidates@.contains(x) implies r@.contains(x) by {
                assert(pool@.contains(x));
                assert(sorted@.contains(x));
                let b = choose|b: int| 0 <= b < sorted@.len() && sorted@[b] == x;
                if accepted@.contains(x) {
                    let a = choose|a: int| 0 <= a < accepted@.len() && accepted@[a] == x;
                    assert(r@[a] == r@.subrange(0, na)[a]);
                    assert(r@[a] == x);
                } else {
                    assert(rejected@.contains(x));
                    let a = choose|a: int| 0 <= a < rejected@.len() && rejected@[a] == x;
                    assert(r@[na + a] == x);
                }
            }
        }
    }
    r
}

} // verus!

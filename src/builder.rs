use vstd::prelude::*;

use rand::rngs::StdRng;
use std::sync::Arc;

use crate::error::HnswError;
use crate::graph::{GraphBuilder, lemma_count_true_pos, linked, pruned};
use crate::level::{is_level, level_for_draw};
use crate::order::{Scored, scored_lt, strictly_sorted};
use crate::random::{draw_below, rng_from_entropy, rng_from_seed};
use crate::search::beam_search;
use crate::select::{heuristic_choice, in_pool, select_neighbors, select_neighbors_heuristic};
use crate::storage::InMemoryVectorStorage;

verus! {

/// All adjacency lists of `layer` hold at most `bound` ids.
pub open spec fn degrees_within(layer: GraphBuilder, bound: nat) -> bool {
    forall|i: int| 0 <= i < layer.num_nodes() ==> (#[trigger] layer.adj(i)).len() <= bound
}

/// No node of `layer` has an edge.
pub open spec fn edgeless(layer: GraphBuilder) -> bool {
    forall|i: int| 0 <= i < layer.num_nodes() ==> (#[trigger] layer.adj(i)).len() == 0
}

/// The ids of a candidate list.
fn ids_of(c: &Vec<Scored>, storage: &InMemoryVectorStorage, q: u32) -> (r: Vec<u32>)
    requires
        storage.scores_for(q as int, c@),
    ensures
        r@.len() == c@.len(),
        forall|a: int| 0 <= a < r@.len() ==> #[trigger] r@[a] == c@[a].1 && r@[a] < storage.spec_len(),
{
    let mut r: Vec<u32> = Vec::new();
    let mut i: usize = 0;
    while i < c.len()
        invariant
            0 <= i <= c@.len(),
            storage.scores_for(q as int, c@),
            r@.len() == i,
            forall|a: int| 0 <= a < i ==> #[trigger] r@[a] == c@[a].1 && r@[a] < storage.spec_len(),
        decreases c@.len() - i,
    {
        r.push(c[i].1);
        i = i + 1;
    }
    r
}

/// The ids of a candidate list, in order.
pub open spec fn ids(s: Seq<Scored>) -> Seq<u32> {
    s.map_values(|p: Scored| p.1)
}

/// Some entry among the first `t` of `s` has id `v`.
pub open spec fn picked(s: Seq<Scored>, t: int, v: int) -> bool {
    exists|a: int| 0 <= a < t && (#[trigger] s[a]).1 == v
}

/// Connects `node` to each selected neighbor, then cuts each neighbor's list
/// and last the node's own list down to `m_max`.
fn connect_and_prune(
    layer: &mut GraphBuilder,
    storage: &InMemoryVectorStorage,
    node: u32,
    neighbours: &Vec<Scored>,
    m_max: usize,
) -> (r: Result<(), HnswError>)
    requires
        old(layer).wf(),
        storage.wf(),
        storage.spec_len() == old(layer).num_nodes(),
        node < old(layer).num_nodes(),
        old(layer).present@[node as int],
        forall|a: int|
            0 <= a < neighbours@.len() ==> (#[trigger] neighbours@[a]).1 < old(layer).num_nodes()
                && neighbours@[a].1 != node && old(layer).present@[neighbours@[a].1 as int],
        degrees_within(*old(layer), m_max as nat),
        old(layer).adj(node as int).len() == 0,
        forall|a: int, b: int| 0 <= a < b < neighbours@.len() ==> (#[trigger] neighbours@[a]).1 != (#[trigger] neighbours@[b]).1,
    ensures
        r is Ok,
        final(layer).wf(),
        final(layer).present@ == old(layer).present@,
        degrees_within(*final(layer), m_max as nat),
        pruned(*storage, node as int, ids(neighbours@), final(layer).adj(node as int), m_max as nat),
        forall|a: int|
            0 <= a < neighbours@.len() ==> pruned(
                *storage,
                (#[trigger] neighbours@[a]).1 as int,
                linked(old(layer).adj(neighbours@[a].1 as int), node, neighbours@[a].1),
                final(layer).adj(neighbours@[a].1 as int),
                m_max as nat,
            ),
        neighbours@.len() == 0 ==> forall|i: int|
            0 <= i < old(layer).num_nodes() ==> #[trigger] final(layer).adj(i) == old(layer).adj(i),
        m_max > 0 ==> forall|i: int|
            0 <= i < old(layer).num_nodes() && old(layer).adj(i).len() > 0 ==> #[trigger] final(layer).adj(i).len() > 0,
        m_max > 0 && neighbours@.len() > 0 ==> final(layer).adj(node as int).len() > 0,
        m_max > 0 ==> forall|a: int|
            0 <= a < neighbours@.len() ==> final(layer).adj((#[trigger] neighbours@[a]).1 as int).len() > 0,
        forall|i: int|
            0 <= i < old(layer).num_nodes() && i != node && !picked(neighbours@, neighbours@.len() as int, i)
                ==> #[trigger] final(layer).adj(i) == old(layer).adj(i),
        forall|x: u32|
            #[trigger] final(layer).adj(node as int).contains(x) ==> old(layer).adj(node as int).contains(x)
                || picked(neighbours@, neighbours@.len() as int, x as int),
        forall|i: int, x: u32|
            0 <= i < old(layer).num_nodes() && i != node && #[trigger] final(layer).adj(i).contains(x)
                ==> old(layer).adj(i).contains(x) || x == node,
{
    let ghost n = layer.num_nodes();
    let mut t: usize = 0;
    while t < neighbours.len()
        invariant
            0 <= t <= neighbours@.len(),
            layer.wf(),
            layer.num_nodes() == n,
            layer.present@ == old(layer).present@,
            storage.wf(),
            storage.spec_len() == n,
            node < n,
            layer.present@[node as int],
            forall|a: int|
                0 <= a < neighbours@.len() ==> (#[trigger] neighbours@[a]).1 < n && neighbours@[a].1 != node
                    && layer.present@[neighbours@[a].1 as int],
            forall|i: int|
                0 <= i < n ==> (#[trigger] layer.adj(i)).len() <= m_max || i == node || exists|s: int|
                    0 <= s < t && (#[trigger] neighbours@[s]).1 == i,
            neighbours@.len() == 0 ==> forall|i: int| 0 <= i < n ==> #[trigger] layer.adj(i) == old(layer).adj(i),
            forall|i: int| 0 <= i < n && old(layer).adj(i).len() > 0 ==> #[trigger] layer.adj(i).len() > 0,
            t > 0 ==> layer.adj(node as int).len() > 0,
            forall|s: int| 0 <= s < t ==> layer.adj((#[trigger] neighbours@[s]).1 as int).len() > 0,
            forall|i: int|
                0 <= i < n && i != node && !picked(neighbours@, t as int, i) ==> #[trigger] layer.adj(i) == old(layer).adj(i),
            forall|x: u32|
                #[trigger] layer.adj(node as int).contains(x) ==> old(layer).adj(node as int).contains(x) || picked(
                    neighbours@,
                    t as int,
                    x as int,
                ),
            forall|i: int, x: u32|
                0 <= i < n && i != node && #[trigger] layer.adj(i).contains(x) ==> old(layer).adj(i).contains(x) || x
                    == node,
            forall|a: int, b: int| 0 <= a < b < neighbours@.len() ==> (#[trigger] neighbours@[a]).1 != (#[trigger] neighbours@[b]).1,
            layer.adj(node as int) == ids(neighbours@.subrange(0, t as int)),
            forall|a: int|
                0 <= a < t ==> #[trigger] layer.adj(neighbours@[a].1 as int) == linked(
                    old(layer).adj(neighbours@[a].1 as int),
                    node,
                    neighbours@[a].1,
                ),
            forall|a: int| t <= a < neighbours@.len() ==> #[trigger] layer.adj(neighbours@[a].1 as int) == old(layer).adj(neighbours@[a].1 as int),
        decreases neighbours@.len() - t,
    {
        let ghost before = *layer;
        let nb = neighbours[t].1;
        match layer.connect(node, nb) {
            Ok(()) => {},
            Err(e) => {
                return Err(e);
            },
        }
        proof {
            let la = before.adj(node as int);
            if !la.contains(nb) {
                assert(la.push(nb)[la.len() as int] == nb);
            }
            let lb = before.adj(nb as int);
            if !lb.contains(node) {
                assert(lb.push(node)[lb.len() as int] == node);
            }
            assert(layer.adj(node as int).contains(nb));
            assert(layer.adj(nb as int).contains(node));
            assert forall|i: int|
                0 <= i < n implies (#[trigger] layer.adj(i)).len() <= m_max || i == node || exists|s: int|
                    0 <= s < t + 1 && (#[trigger] neighbours@[s]).1 == i by {
                if i == nb {
                    assert(neighbours@[t as int].1 == i);
                } else if i != node {
                    assert(layer.adj(i) == before.adj(i));
                    if before.adj(i).len() > m_max {
                        let s = choose|s: int| 0 <= s < t && (#[trigger] neighbours@[s]).1 == i;
                    }
                }
            }
            assert forall|i: int| 0 <= i < n && old(layer).adj(i).len() > 0 implies #[trigger] layer.adj(i).len() > 0 by {
                if i != node && i != nb {
                    assert(layer.adj(i) == before.adj(i));
                } else if i == node {
                    assert(layer.adj(node as int).contains(nb));
                } else {
                    assert(layer.adj(nb as int).contains(node));
                }
            }
            assert forall|s: int| 0 <= s < t + 1 implies layer.adj((#[trigger] neighbours@[s]).1 as int).len() > 0 by {
                let v = neighbours@[s].1 as int;
                if v == nb {
                    assert(layer.adj(nb as int).contains(node));
                } else {
                    assert(layer.adj(v) == before.adj(v));
                }
            }
            assert(neighbours@[t as int].1 == nb);
            assert(!before.adj(node as int).contains(nb)) by {
                if before.adj(node as int).contains(nb) {
                    let k = choose|k: int| 0 <= k < before.adj(node as int).len() && before.adj(node as int)[k] == nb;
                    assert(neighbours@.subrange(0, t as int)[k] == neighbours@[k]);
                    assert(neighbours@[k].1 == neighbours@[t as int].1);
                }
            }
            assert(layer.adj(node as int) =~= ids(neighbours@.subrange(0, t + 1)));
            assert forall|a: int|
                0 <= a < t + 1 implies #[trigger] layer.adj(neighbours@[a].1 as int) == linked(
                old(layer).adj(neighbours@[a].1 as int),
                node,
                neighbours@[a].1,
            ) by {
                if a < t {
                    assert(neighbours@[a].1 != neighbours@[t as int].1);
                    assert(layer.adj(neighbours@[a].1 as int) == before.adj(neighbours@[a].1 as int));
                }
            }
            assert forall|a: int| t + 1 <= a < neighbours@.len() implies #[trigger] layer.adj(neighbours@[a].1 as int)
                == old(layer).adj(neighbours@[a].1 as int) by {
                assert(neighbours@[a].1 != neighbours@[t as int].1);
                assert(layer.adj(neighbours@[a].1 as int) == before.adj(neighbours@[a].1 as int));
            }
            assert forall|i: int|
                0 <= i < n && i != node && !picked(neighbours@, t + 1, i) implies #[trigger] layer.adj(i) == old(layer).adj(i) by {
                assert(i != nb);
                assert(layer.adj(i) == before.adj(i));
                if picked(neighbours@, t as int, i) {
                    let a = choose|a: int| 0 <= a < t && (#[trigger] neighbours@[a]).1 == i;
                    assert(picked(neighbours@, t + 1, i));
                }
            }
            assert forall|x: u32| #[trigger] layer.adj(node as int).contains(x) implies old(layer).adj(node as int).contains(x)
                || picked(neighbours@, t + 1, x as int) by {
                if x == nb {
                    assert(picked(neighbours@, t + 1, x as int));
                } else {
                    assert(before.adj(node as int).contains(x));
                    if picked(neighbours@, t as int, x as int) {
                        let a = choose|a: int| 0 <= a < t && (#[trigger] neighbours@[a]).1 == x as int;
                        assert(picked(neighbours@, t + 1, x as int));
                    }
                }
            }
            assert forall|i: int, x: u32|
                0 <= i < n && i != node && #[trigger] layer.adj(i).contains(x) implies old(layer).adj(i).contains(x) || x
                    == node by {
                if i != nb {
                    assert(layer.adj(i) == before.adj(i));
                }
                if x != node {
                    assert(before.adj(i).contains(x));
                }
            }
        }
        t = t + 1;
    }
    assert(neighbours@.subrange(0, neighbours@.len() as int) =~= neighbours@);
    let ghost joined = *layer;
    let mut t: usize = 0;
    while t < neighbours.len()
        invariant
            0 <= t <= neighbours@.len(),
            layer.wf(),
            layer.num_nodes() == n,
            layer.present@ == old(layer).present@,
            storage.wf(),
            storage.spec_len() == n,
            node < n,
            forall|a: int| 0 <= a < neighbours@.len() ==> (#[trigger] neighbours@[a]).1 < n && neighbours@[a].1 != node,
            forall|i: int|
                0 <= i < n ==> (#[trigger] layer.adj(i)).len() <= m_max || i == node || exists|s: int|
                    t <= s < neighbours@.len() && (#[trigger] neighbours@[s]).1 == i,
            neighbours@.len() == 0 ==> forall|i: int| 0 <= i < n ==> #[trigger] layer.adj(i) == old(layer).adj(i),
            m_max > 0 ==> forall|i: int| 0 <= i < n && joined.adj(i).len() > 0 ==> #[trigger] layer.adj(i).len() > 0,
            joined.num_nodes() == n,
            forall|i: int|
                0 <= i < n && i != node && !picked(neighbours@, neighbours@.len() as int, i) ==> #[trigger] layer.adj(i)
                    == old(layer).adj(i),
            forall|x: u32|
                #[trigger] layer.adj(node as int).contains(x) ==> old(layer).adj(node as int).contains(x) || picked(
                    neighbours@,
                    neighbours@.len() as int,
                    x as int,
                ),
            forall|i: int, x: u32|
                0 <= i < n && i != node && #[trigger] layer.adj(i).contains(x) ==> old(layer).adj(i).contains(x) || x
                    == node,
            layer.adj(node as int) == joined.adj(node as int),
            forall|a: int, b: int| 0 <= a < b < neighbours@.len() ==> (#[trigger] neighbours@[a]).1 != (#[trigger] neighbours@[b]).1,
            forall|a: int|
                0 <= a < t ==> pruned(
                    *storage,
                    (#[trigger] neighbours@[a]).1 as int,
                    joined.adj(neighbours@[a].1 as int),
                    layer.adj(neighbours@[a].1 as int),
                    m_max as nat,
                ),
            forall|a: int| t <= a < neighbours@.len() ==> #[trigger] layer.adj(neighbours@[a].1 as int) == joined.adj(neighbours@[a].1 as int),
        decreases neighbours@.len() - t,
    {
        let ghost before = *layer;
        let nb = neighbours[t].1;
        match layer.prune(nb, m_max, storage) {
            Ok(()) => {},
            Err(e) => {
                return Err(e);
            },
        }
        assert forall|i: int|
            0 <= i < n implies (#[trigger] layer.adj(i)).len() <= m_max || i == node || exists|s: int|
                t + 1 <= s < neighbours@.len() && (#[trigger] neighbours@[s]).1 == i by {
            if i != nb && i != node {
                assert(layer.adj(i) == before.adj(i));
                if before.adj(i).len() > m_max {
                    let s = choose|s: int| t <= s < neighbours@.len() && (#[trigger] neighbours@[s]).1 == i;
                    assert(s != t);
                }
            }
        }
        assert forall|i: int| 0 <= i < n && m_max > 0 && joined.adj(i).len() > 0 implies #[trigger] layer.adj(i).len() > 0 by {
            if i != nb {
                assert(layer.adj(i) == before.adj(i));
            }
        }
        assert(picked(neighbours@, neighbours@.len() as int, nb as int)) by {
            assert(neighbours@[t as int].1 == nb);
        }
        assert forall|a: int|
            0 <= a < t + 1 implies pruned(
            *storage,
            (#[trigger] neighbours@[a]).1 as int,
            joined.adj(neighbours@[a].1 as int),
            layer.adj(neighbours@[a].1 as int),
            m_max as nat,
        ) by {
            if a < t {
                assert(neighbours@[a].1 != neighbours@[t as int].1);
                assert(layer.adj(neighbours@[a].1 as int) == before.adj(neighbours@[a].1 as int));
            }
        }
        assert forall|a: int| t + 1 <= a < neighbours@.len() implies #[trigger] layer.adj(neighbours@[a].1 as int)
            == joined.adj(neighbours@[a].1 as int) by {
            assert(neighbours@[a].1 != neighbours@[t as int].1);
            assert(layer.adj(neighbours@[a].1 as int) == before.adj(neighbours@[a].1 as int));
        }
        assert forall|i: int|
            0 <= i < n && i != node && !picked(neighbours@, neighbours@.len() as int, i) implies #[trigger] layer.adj(i)
                == old(layer).adj(i) by {
            assert(layer.adj(i) == before.adj(i));
        }
        assert forall|x: u32| #[trigger] layer.adj(node as int).contains(x) implies old(layer).adj(node as int).contains(x)
            || picked(neighbours@, neighbours@.len() as int, x as int) by {
            assert(layer.adj(node as int) == before.adj(node as int));
        }
        assert forall|i: int, x: u32|
            0 <= i < n && i != node && #[trigger] layer.adj(i).contains(x) implies old(layer).adj(i).contains(x) || x
                == node by {
            if i != nb {
                assert(layer.adj(i) == before.adj(i));
            }
            assert(before.adj(i).contains(x));
        }
        t = t + 1;
    }
    let ghost before = *layer;
    match layer.prune(node, m_max, storage) {
        Ok(()) => {},
        Err(e) => {
            return Err(e);
        },
    }
    assert forall|i: int| 0 <= i < n implies (#[trigger] layer.adj(i)).len() <= m_max by {
        if i != node {
            assert(layer.adj(i) == before.adj(i));
        }
    }
    assert forall|a: int|
        0 <= a < neighbours@.len() implies pruned(
        *storage,
        (#[trigger] neighbours@[a]).1 as int,
        linked(old(layer).adj(neighbours@[a].1 as int), node, neighbours@[a].1),
        layer.adj(neighbours@[a].1 as int),
        m_max as nat,
    ) by {
        assert(layer.adj(neighbours@[a].1 as int) == before.adj(neighbours@[a].1 as int));
        assert(joined.adj(neighbours@[a].1 as int) == linked(old(layer).adj(neighbours@[a].1 as int), node, neighbours@[a].1));
    }
    assert forall|i: int| 0 <= i < n && m_max > 0 && joined.adj(i).len() > 0 implies #[trigger] layer.adj(i).len() > 0 by {
        if i != node {
            assert(layer.adj(i) == before.adj(i));
        }
    }
    assert forall|i: int|
        0 <= i < n && i != node && !picked(neighbours@, neighbours@.len() as int, i) implies #[trigger] layer.adj(i)
            == old(layer).adj(i) by {
        assert(layer.adj(i) == before.adj(i));
    }
    assert forall|x: u32| #[trigger] layer.adj(node as int).contains(x) implies old(layer).adj(node as int).contains(x)
        || picked(neighbours@, neighbours@.len() as int, x as int) by {
        assert(before.adj(node as int).contains(x));
    }
    assert forall|i: int, x: u32|
        0 <= i < n && i != node && #[trigger] layer.adj(i).contains(x) implies old(layer).adj(i).contains(x) || x
            == node by {
        assert(layer.adj(i) == before.adj(i));
    }
    proof {
        if neighbours@.len() == 0 {
            assert forall|i: int| 0 <= i < n implies #[trigger] layer.adj(i) == old(layer).adj(i) by {
                if i != node {
                    assert(layer.adj(i) == before.adj(i));
                } else {
                    assert(old(layer).adj(i).len() <= m_max);
                }
            }
        }
        if m_max > 0 {
            assert forall|a: int| 0 <= a < neighbours@.len() implies layer.adj((#[trigger] neighbours@[a]).1 as int).len() > 0 by {
                assert(joined.adj(neighbours@[a].1 as int).len() > 0);
            }
            assert forall|i: int| 0 <= i < n && old(layer).adj(i).len() > 0 implies #[trigger] layer.adj(i).len() > 0 by {
                assert(joined.adj(i).len() > 0);
            }
        }
    }
    Ok(())
}

/// `v` is the id of one of the search results `c`, or, when `widened`, in
/// the adjacency list in `layer` of one of them.
pub open spec fn in_search_pool(layer: GraphBuilder, c: Seq<Scored>, widened: bool, v: int) -> bool {
    ||| exists|a: int| 0 <= a < c.len() && (#[trigger] c[a]).1 == v
    ||| widened && exists|a: int| 0 <= a < c.len() && #[trigger] layer.adj(c[a].1 as int).contains(v as u32)
}

/// `sel` is what neighbor selection makes of the search results `c` for
/// `node` in `layer` with target count `m`: with the heuristic, its choice
/// from the sorted pool of `c` (widened by `extend`); otherwise the `m`
/// closest of `c`, ties broken by id, closest first.
pub open spec fn selection_of(
    layer: GraphBuilder,
    storage: InMemoryVectorStorage,
    node: int,
    c: Seq<Scored>,
    m: nat,
    use_heuristic: bool,
    extend: bool,
    sel: Seq<Scored>,
) -> bool {
    if use_heuristic {
        exists|s: Seq<Scored>|
            strictly_sorted(s) && (forall|x: Scored| #[trigger] s.contains(x) <==> in_pool(layer, storage, node, c, extend, x))
                && sel == #[trigger] heuristic_choice(storage, s, m)
    } else {
        &&& sel.len() == if m <= c.len() { m } else { c.len() }
        &&& strictly_sorted(sel)
        &&& forall|x: Scored| #[trigger] sel.contains(x) ==> c.contains(x)
        &&& forall|x: Scored, y: Scored|
            #[trigger] sel.contains(x) && #[trigger] c.contains(y) && !sel.contains(y) ==> scored_lt(x, y)
    }
}

/// `new` is `old` after `node` was linked to each of `sel` and then each
/// of `sel`, and last `node`, had its list pruned to `m_max`: the node's list
/// is the pruned ids of `sel`; the list of each of `sel` is its old list plus
/// the node, pruned; every other list is unchanged.
pub open spec fn linked_and_pruned(
    old: GraphBuilder,
    new: GraphBuilder,
    storage: InMemoryVectorStorage,
    node: int,
    sel: Seq<Scored>,
    m_max: nat,
) -> bool {
    &&& pruned(storage, node, ids(sel), new.adj(node), m_max)
    &&& forall|a: int|
        0 <= a < sel.len() ==> pruned(
            storage,
            (#[trigger] sel[a]).1 as int,
            linked(old.adj(sel[a].1 as int), node as u32, sel[a].1),
            new.adj(sel[a].1 as int),
            m_max,
        )
    &&& forall|i: int|
        0 <= i < old.num_nodes() && i != node && !picked(sel, sel.len() as int, i) ==> #[trigger] new.adj(i)
            == old.adj(i)
}

/// `new` is the layers `old` after inserting `node` with height `height`:
/// each layer up to the height takes the node as [`layer_insertion`] says,
/// with the base layer's size as selection target; the others are unchanged.
pub open spec fn insertion_step(
    old: Seq<GraphBuilder>,
    new: Seq<GraphBuilder>,
    storage: InMemoryVectorStorage,
    node: int,
    height: int,
    m_max: nat,
    use_heuristic: bool,
    extend: bool,
) -> bool {
    &&& old.len() > 0
    &&& new.len() == old.len()
    &&& forall|l: int|
        0 <= l < old.len() && l <= height ==> #[trigger] layer_insertion(
            old[l],
            new[l],
            storage,
            node,
            crate::graph::count_true(old[0].present@),
            m_max,
            use_heuristic,
            extend,
        )
    &&& forall|l: int| 0 <= l < old.len() && height < l ==> #[trigger] new[l] == old[l]
}

/// `levels` are `num_levels` layers over `n` node ids holding node 0 alone,
/// with no edge.
pub open spec fn seed_layers(levels: Seq<GraphBuilder>, n: nat, num_levels: nat) -> bool {
    &&& levels.len() == num_levels
    &&& forall|l: int|
        0 <= l < num_levels ==> (#[trigger] levels[l]).num_nodes() == n && edgeless(levels[l]) && forall|i: int|
            0 <= i < n ==> (#[trigger] levels[l].present@[i] <==> i == 0)
}

/// One layer's share of inserting `node`: some search result `c` scored
/// against the node, the selection from it, and the linking and pruning of
/// that selection take `old` to `new`.
pub open spec fn layer_insertion(
    old: GraphBuilder,
    new: GraphBuilder,
    storage: InMemoryVectorStorage,
    node: int,
    m: nat,
    m_max: nat,
    use_heuristic: bool,
    extend: bool,
) -> bool {
    exists|c: Seq<Scored>, sel: Seq<Scored>|
        storage.scores_for(node, c) && #[trigger] selection_of(old, storage, node, c, m, use_heuristic, extend, sel)
            && linked_and_pruned(old, new, storage, node, sel, m_max)
}

/// One layer's share of inserting `node`: marks it present, searches the
/// layer from `ep` with width `ef`, selects neighbors (up to `m` of them),
/// connects and prunes. Returns what the search found.
fn insert_into_layer(
    layer: &mut GraphBuilder,
    storage: &InMemoryVectorStorage,
    node: u32,
    ep: &Vec<u32>,
    m: usize,
    ef: usize,
    m_max: usize,
    use_heuristic: bool,
    extend: bool,
) -> (r: Result<Vec<Scored>, HnswError>)
    requires
        old(layer).wf(),
        storage.wf(),
        storage.spec_len() == old(layer).num_nodes(),
        node < old(layer).num_nodes(),
        !old(layer).present@[node as int],
        forall|a: int|
            0 <= a < ep@.len() ==> #[trigger] ep@[a] < old(layer).num_nodes() && ep@[a] != node
                && old(layer).present@[ep@[a] as int],
        degrees_within(*old(layer), m_max as nat),
    ensures
        r matches Ok(c) && storage.scores_for(node as int, c@) && (forall|a: int|
            0 <= a < c@.len() ==> (#[trigger] c@[a]).1 != node && old(layer).present@[c@[a].1 as int]),
        r matches Ok(c) && (ef > 0 && ep@.len() > 0 ==> c@.len() > 0),
        final(layer).wf(),
        final(layer).present@ == old(layer).present@.update(node as int, true),
        degrees_within(*final(layer), m_max as nat),
        ef == 0 && edgeless(*old(layer)) ==> edgeless(*final(layer)),
        m_max > 0 ==> forall|i: int|
            0 <= i < old(layer).num_nodes() && old(layer).adj(i).len() > 0 ==> #[trigger] final(layer).adj(i).len() > 0,
        m_max > 0 && ef > 0 && m > 0 && ep@.len() > 0 ==> final(layer).adj(node as int).len() > 0 && exists|v: int|
            0 <= v < old(layer).num_nodes() && v != node && old(layer).present@[v] && #[trigger] final(layer).adj(v).len() > 0,
        r matches Ok(c) && forall|x: u32|
            #[trigger] final(layer).adj(node as int).contains(x) ==> in_search_pool(
                *old(layer),
                c@,
                use_heuristic && extend,
                x as int,
            ),
        r matches Ok(c) && forall|i: int|
            0 <= i < old(layer).num_nodes() && i != node && !in_search_pool(*old(layer), c@, use_heuristic && extend, i)
                ==> #[trigger] final(layer).adj(i) == old(layer).adj(i),
        forall|i: int, x: u32|
            0 <= i < old(layer).num_nodes() && i != node && #[trigger] final(layer).adj(i).contains(x)
                ==> old(layer).adj(i).contains(x) || x == node,
        layer_insertion(*old(layer), *final(layer), *storage, node as int, m as nat, m_max as nat, use_heuristic, extend),
{
    layer.insert(node);
    assert forall|i: int| 0 <= i < layer.num_nodes() implies (#[trigger] layer.adj(i)).len() <= m_max by {
        assert(layer.adj(i) == old(layer).adj(i));
    }
    let ghost joined = *layer;
    // an id that some list holds is an old member, hence not `node`
    assert forall|i: int, v: u32| 0 <= i < layer.num_nodes() && #[trigger] layer.adj(i).contains(v) implies v != node
        && old(layer).present@[v as int] by {
        assert(layer.adj(i) == old(layer).adj(i));
        let j = choose|j: int| 0 <= j < old(layer).adj(i).len() && old(layer).adj(i)[j] == v;
        assert(old(layer).adj(i)[j] < old(layer).num_nodes());
    }
    let candidates = beam_search(layer, storage, ep, node, ef);
    assert forall|a: int| 0 <= a < candidates@.len() implies (#[trigger] candidates@[a]).1 != node
        && old(layer).present@[candidates@[a].1 as int] by {
        let v = candidates@[a].1;
        if ep@.contains(v) {
            let b = choose|b: int| 0 <= b < ep@.len() && ep@[b] == v;
        } else {
            let i = choose|i: int| 0 <= i < layer.num_nodes() && #[trigger] layer.adj(i).contains(v);
        }
    }
    let neighbours = if use_heuristic {
        select_neighbors_heuristic(layer, storage, node, &candidates, m, extend)
    } else {
        select_neighbors(&candidates, m)
    };
    proof {
        assert forall|a: int| 0 <= a < neighbours@.len() implies (#[trigger] neighbours@[a]).1 < layer.num_nodes()
            && neighbours@[a].1 != node && layer.present@[neighbours@[a].1 as int] by {
            assert(neighbours@.contains(neighbours@[a]));
            let x = neighbours@[a];
            if candidates@.contains(x) {
                let b = choose|b: int| 0 <= b < candidates@.len() && candidates@[b] == x;
            } else {
                assert(use_heuristic);
                assert(in_pool(*layer, *storage, node as int, candidates@, extend, x));
                let c = choose|c: Scored| #[trigger] candidates@.contains(c) && c.1 < layer.num_nodes() && layer.adj(c.1 as int).contains(x.1);
            }
        }
        if ef == 0 && neighbours@.len() > 0 {
            assert(neighbours@.contains(neighbours@[0]));
            if use_heuristic {
                assert(!in_pool(*layer, *storage, node as int, candidates@, extend, neighbours@[0]));
            }
        }
        if ef > 0 && m > 0 && ep@.len() > 0 {
            assert(candidates@.contains(candidates@[0]));
            if use_heuristic && neighbours@.len() < m {
                assert(neighbours@.contains(candidates@[0]));
            }
            assert(neighbours@.len() > 0);
        }
    }
    proof {
        assert(old(layer).adj(node as int).len() == 0) by {
            if old(layer).adj(node as int).len() > 0 {
                assert(old(layer).adj(node as int)[0] < old(layer).num_nodes());
            }
        }
        assert(layer.adj(node as int) == old(layer).adj(node as int));
        assert forall|a: int| 0 <= a < neighbours@.len() implies (#[trigger] neighbours@[a]).0 == storage.dist(
            node as int,
            neighbours@[a].1 as int,
        ) by {
            if !use_heuristic {
                assert(neighbours@.contains(neighbours@[a]));
                let b = choose|b: int| 0 <= b < candidates@.len() && candidates@[b] == neighbours@[a];
            }
        }
        assert forall|a: int, b: int| 0 <= a < b < neighbours@.len() implies (#[trigger] neighbours@[a]).1
            != (#[trigger] neighbours@[b]).1 by {
            if neighbours@[a].1 == neighbours@[b].1 {
                assert(neighbours@[a] == neighbours@[b]);
                if !use_heuristic {
                    assert(scored_lt(neighbours@[a], neighbours@[b]));
                }
            }
        }
    }
    match connect_and_prune(layer, storage, node, &neighbours, m_max) {
        Ok(()) => {},
        Err(e) => {
            return Err(e);
        },
    }
    proof {
        if ef == 0 && edgeless(*old(layer)) {
            assert forall|i: int| 0 <= i < layer.num_nodes() implies (#[trigger] layer.adj(i)).len() == 0 by {
                assert(joined.adj(i) == old(layer).adj(i));
                assert(old(layer).adj(i).len() == 0);
            }
        }
        if m_max > 0 {
            assert forall|i: int| 0 <= i < old(layer).num_nodes() && old(layer).adj(i).len() > 0 implies #[trigger] layer.adj(i).len() > 0 by {
                assert(joined.adj(i) == old(layer).adj(i));
            }
        }
        if m_max > 0 && ef > 0 && m > 0 && ep@.len() > 0 {
            let v = neighbours@[0].1 as int;
            assert(layer.adj(v).len() > 0);
        }
        assert forall|v: int| picked(neighbours@, neighbours@.len() as int, v) implies in_search_pool(
            *old(layer),
            candidates@,
            use_heuristic && extend,
            v,
        ) by {
            let a = choose|a: int| 0 <= a < neighbours@.len() && (#[trigger] neighbours@[a]).1 == v;
            let x = neighbours@[a];
            assert(neighbours@.contains(x));
            if candidates@.contains(x) {
                let b = choose|b: int| 0 <= b < candidates@.len() && candidates@[b] == x;
                assert(candidates@[b].1 == v);
            } else {
                assert(use_heuristic);
                assert(in_pool(joined, *storage, node as int, candidates@, extend, x));
                let c = choose|c: Scored| #[trigger] candidates@.contains(c) && c.1 < joined.num_nodes() && joined.adj(c.1 as int).contains(x.1);
                let b = choose|b: int| 0 <= b < candidates@.len() && candidates@[b] == c;
                assert(joined.adj(c.1 as int) == old(layer).adj(c.1 as int));
                assert(old(layer).adj(candidates@[b].1 as int).contains(v as u32));
            }
        }
        assert(old(layer).adj(node as int).len() == 0) by {
            if old(layer).adj(node as int).len() > 0 {
                assert(old(layer).adj(node as int)[0] < old(layer).num_nodes());
            }
        }
        assert forall|x: u32| #[trigger] layer.adj(node as int).contains(x) implies in_search_pool(
            *old(layer),
            candidates@,
            use_heuristic && extend,
            x as int,
        ) by {
            assert(joined.adj(node as int) == old(layer).adj(node as int));
            assert(!joined.adj(node as int).contains(x));
            assert(picked(neighbours@, neighbours@.len() as int, x as int));
        }
        assert forall|i: int|
            0 <= i < old(layer).num_nodes() && i != node && !in_search_pool(*old(layer), candidates@, use_heuristic && extend, i)
                implies #[trigger] layer.adj(i) == old(layer).adj(i) by {
            assert(!picked(neighbours@, neighbours@.len() as int, i));
            assert(joined.adj(i) == old(layer).adj(i));
        }
        assert forall|i: int, x: u32|
            0 <= i < old(layer).num_nodes() && i != node && #[trigger] layer.adj(i).contains(x)
                implies old(layer).adj(i).contains(x) || x == node by {
            assert(joined.adj(i) == old(layer).adj(i));
        }
        assert forall|x: Scored| in_pool(joined, *storage, node as int, candidates@, extend, x) == in_pool(
            *old(layer),
            *storage,
            node as int,
            candidates@,
            extend,
            x,
        ) by {}
        assert(selection_of(*old(layer), *storage, node as int, candidates@, m as nat, use_heuristic, extend, neighbours@));
        assert(linked_and_pruned(*old(layer), *layer, *storage, node as int, neighbours@, m_max as nat)) by {
            assert forall|i: int|
                0 <= i < old(layer).num_nodes() && i != node && !picked(neighbours@, neighbours@.len() as int, i)
                    implies #[trigger] layer.adj(i) == old(layer).adj(i) by {
                assert(joined.adj(i) == old(layer).adj(i));
            }
        }
    }
    Ok(candidates)
}

/// Builds an HNSW graph over the vectors of an [`InMemoryVectorStorage`],
/// layer by layer, fully in memory. Each node's global id is its index in
/// the base layer, which is also its index in the vector storage.
pub struct HNSWBuilder {
    /// Number of layers.
    pub max_level: u16,
    /// Maximum number of edges of a node in one layer.
    pub m_max: usize,
    /// Width of the candidate list while searching during construction.
    pub ef_construction: usize,
    pub vectors: Arc<InMemoryVectorStorage>,
    pub levels: Vec<GraphBuilder>,
    pub entry_point: u32,
    pub extend_candidates: bool,
    /// Base of the logarithm that spreads nodes over the layers.
    pub log_base: u64,
    pub use_select_heuristic: bool,
    /// Source of the random layer heights.
    pub rng: StdRng,
    /// The height assigned to each node: the index of the topmost layer it is in.
    pub heights: Vec<u16>,
}

/// The finished graph: its layers, base layer first, and its entry point.
pub struct HNSW {
    pub levels: Vec<GraphBuilder>,
    pub entry_point: u32,
    /// The index of the topmost layer that each node is in.
    pub heights: Vec<u16>,
    pub storage: Arc<InMemoryVectorStorage>,
    pub use_select_heuristic: bool,
}

impl HNSW {
    /// Number of layers.
    pub fn num_levels(&self) -> (r: usize)
        ensures
            r == self.levels@.len(),
    {
        self.levels.len()
    }

    /// Layer `l`, the base layer being 0.
    pub fn level(&self, l: usize) -> (r: &GraphBuilder)
        requires
            l < self.levels@.len(),
        ensures
            *r == self.levels@[l as int],
    {
        &self.levels[l]
    }

    /// The node where searches start.
    pub fn entry_point(&self) -> (r: u32)
        ensures
            r == self.entry_point,
    {
        self.entry_point
    }

    /// The index of the topmost layer that `node` is in.
    pub fn height(&self, node: u32) -> (r: u16)
        requires
            node < self.heights@.len(),
        ensures
            r == self.heights@[node as int],
    {
        self.heights[node as usize]
    }
}

impl HNSWBuilder {
    /// Number of vectors, hence of node ids.
    pub open spec fn num_vectors(&self) -> nat {
        self.vectors.spec_len()
    }

    /// A fresh builder over `vectors`: 8 layers, at most 64 edges per node
    /// and layer, a search width of 100 during construction, the selection
    /// heuristic on, candidate extension off, logarithm base 10, and a random
    /// generator seeded from the operating system.
    pub fn new(vectors: Arc<InMemoryVectorStorage>) -> (r: Self)
        ensures
            r.max_level == 8,
            r.m_max == 64,
            r.ef_construction == 100,
            r.vectors == vectors,
            r.levels@.len() == 0,
            r.heights@.len() == 0,
            r.entry_point == 0,
            !r.extend_candidates,
            r.log_base == 10,
            r.use_select_heuristic,
    {
        HNSWBuilder {
            max_level: 8,
            m_max: 64,
            ef_construction: 100,
            vectors,
            levels: Vec::new(),
            entry_point: 0,
            extend_candidates: false,
            log_base: 10,
            use_select_heuristic: true,
            rng: rng_from_entropy(),
            heights: Vec::new(),
        }
    }

    /// The maximum level of the graph: the number of layers.
    pub fn max_level(self, max_level: u16) -> (r: Self)
        ensures
            r == (HNSWBuilder { max_level, ..self }),
    {
        HNSWBuilder { max_level, ..self }
    }

    /// The maximum number of edges of each node per layer.
    pub fn max_num_edges(self, m_max: usize) -> (r: Self)
        ensures
            r == (HNSWBuilder { m_max, ..self }),
    {
        HNSWBuilder { m_max, ..self }
    }

    /// Number of candidates kept while searching for the nearest neighbors
    /// during construction.
    pub fn ef_construction(self, ef_construction: usize) -> (r: Self)
        ensures
            r == (HNSWBuilder { ef_construction, ..self }),
    {
        HNSWBuilder { ef_construction, ..self }
    }

    /// Whether the selection heuristic also considers the neighbors of the
    /// candidates.
    pub fn extend_candidates(self, flag: bool) -> (r: Self)
        ensures
            r == (HNSWBuilder { extend_candidates: flag, ..self }),
    {
        HNSWBuilder { extend_candidates: flag, ..self }
    }

    /// Whether neighbors are chosen by the diversity-aware heuristic rather
    /// than by distance alone.
    pub fn use_select_heuristic(self, flag: bool) -> (r: Self)
        ensures
            r == (HNSWBuilder { use_select_heuristic: flag, ..self }),
    {
        HNSWBuilder { use_select_heuristic: flag, ..self }
    }

    /// Reseeds the generator of layer heights, so that builds repeat.
    pub fn seed(self, seed: u64) -> (r: Self)
        ensures
            r.max_level == self.max_level,
            r.m_max == self.m_max,
            r.ef_construction == self.ef_construction,
            r.vectors == self.vectors,
            r.levels == self.levels,
            r.heights == self.heights,
            r.entry_point == self.entry_point,
            r.extend_candidates == self.extend_candidates,
            r.log_base == self.log_base,
            r.use_select_heuristic == self.use_select_heuristic,
    {
        HNSWBuilder { rng: rng_from_seed(seed), ..self }
    }

    /// Number of nodes in the base layer.
    fn len(&self) -> (r: usize)
        requires
            self.levels@.len() > 0,
        ensures
            r == crate::graph::count_true(self.levels@[0].present@),
    {
        self.levels[0].len()
    }

    /// A new node's height, drawn afresh on each call.
    fn random_level(&mut self) -> (r: u16)
        requires
            old(self).log_base >= 2,
        ensures
            r <= old(self).max_level,
            old(self).num_vectors() == 0 ==> r == 0,
            old(self).num_vectors() > 0 ==> exists|u: nat|
                u < old(self).num_vectors() && #[trigger] is_level(
                    old(self).num_vectors(),
                    u,
                    old(self).log_base as nat,
                    old(self).max_level as nat,
                    r as nat,
                ),
            final(self).max_level == old(self).max_level,
            final(self).m_max == old(self).m_max,
            final(self).ef_construction == old(self).ef_construction,
            final(self).vectors == old(self).vectors,
            final(self).levels == old(self).levels,
            final(self).heights == old(self).heights,
            final(self).entry_point == old(self).entry_point,
            final(self).extend_candidates == old(self).extend_candidates,
            final(self).log_base == old(self).log_base,
            final(self).use_select_heuristic == old(self).use_select_heuristic,
    {
        let m = self.vectors.len() as u64;
        if m == 0 {
            return 0;
        }
        let u = draw_below(&mut self.rng, m);
        level_for_draw(m, u, self.log_base, self.max_level)
    }

    /// `h` is the height of a node whose level was drawn as the formula of
    /// [`is_level`] says, capped at the topmost layer.
    pub open spec fn height_drawn(&self, h: nat) -> bool {
        exists|u: nat, lv: nat|
            u < self.num_vectors() && #[trigger] is_level(
                self.num_vectors(),
                u,
                self.log_base as nat,
                self.max_level as nat,
                lv,
            ) && h == if lv < self.max_level { lv } else { (self.max_level - 1) as nat }
    }

    /// The nodes `0..upto` are in the graph: node `i` in layers `0..=heights[i]`
    /// (node 0 in all of them) and in no other; every adjacency list holds at
    /// most `m_max` ids; the entry point is a node of the greatest height.
    pub open spec fn built_upto(&self, upto: nat) -> bool {
        let n = self.num_vectors();
        let nl = self.levels@.len();
        &&& self.vectors.wf()
        &&& self.log_base >= 2
        &&& nl == self.max_level
        &&& nl > 0
        &&& 1 <= upto <= n
        &&& self.heights@.len() == n
        &&& self.entry_point < upto
        &&& forall|l: int|
            0 <= l < nl ==> (#[trigger] self.levels@[l]).wf() && self.levels@[l].num_nodes() == n
                && degrees_within(self.levels@[l], self.m_max as nat)
        &&& forall|l: int| 0 <= l < nl && self.ef_construction == 0 ==> edgeless(#[trigger] self.levels@[l])
        &&& forall|l: int, i: int|
            0 <= l < nl && 0 <= i < n ==> (#[trigger] self.levels@[l].present@[i] <==> (i < upto && l
                <= self.heights@[i]))
        &&& self.heights@[0] == nl - 1
        &&& forall|i: int| 1 <= i < upto ==> self.height_drawn(#[trigger] self.heights@[i] as nat)
        &&& forall|i: int| 0 <= i < upto ==> #[trigger] self.heights@[i] <= self.heights@[self.entry_point as int]
        &&& self.ef_construction > 0 && self.m_max > 0 && upto >= 2 ==> forall|i: int|
            0 <= i < upto ==> (#[trigger] self.levels@[0].adj(i)).len() > 0
    }

    /// The settings and the vectors, which a build does not change.
    pub open spec fn same_settings(&self, other: &Self) -> bool {
        &&& self.max_level == other.max_level
        &&& self.m_max == other.m_max
        &&& self.ef_construction == other.ef_construction
        &&& self.vectors == other.vectors
        &&& self.extend_candidates == other.extend_candidates
        &&& self.log_base == other.log_base
        &&& self.use_select_heuristic == other.use_select_heuristic
    }

    /// Inserts one node: draws its height, descends from the entry point
    /// through the layers above it, then links it into each layer from its
    /// height down to the base.
    fn insert(&mut self, node: u32) -> (r: Result<(), HnswError>)
        requires
            old(self).built_upto(node as nat),
            node < old(self).num_vectors(),
        ensures
            r is Ok,
            final(self).built_upto(node as nat + 1),
            final(self).same_settings(&*old(self)),
            forall|v: int| 0 <= v < node ==> #[trigger] final(self).heights@[v] == old(self).heights@[v],
            forall|l: int|
                final(self).heights@[node as int] < l < old(self).levels@.len() ==> #[trigger] final(self).levels@[l]
                    == old(self).levels@[l],
            final(self).entry_point == old(self).entry_point || final(self).entry_point == node,
            forall|l: int, i: int, x: u32|
                0 <= l < old(self).levels@.len() && 0 <= i < old(self).num_vectors() && i != node
                    && #[trigger] final(self).levels@[l].adj(i).contains(x) ==> old(self).levels@[l].adj(i).contains(x)
                    || x == node,
            forall|l: int|
                0 <= l <= final(self).heights@[node as int] ==> #[trigger] layer_insertion(
                    old(self).levels@[l],
                    final(self).levels@[l],
                    *old(self).vectors,
                    node as int,
                    crate::graph::count_true(old(self).levels@[0].present@),
                    old(self).m_max as nat,
                    old(self).use_select_heuristic,
                    old(self).extend_candidates,
                ),
    {
        let level = self.random_level();
        let ghost n = self.num_vectors();
        let nl = self.levels.len();
        let levels_to_search: usize = if nl > level as usize {
            nl - level as usize - 1
        } else {
            0
        };
        let height: u16 = (nl - levels_to_search - 1) as u16;
        proof {
            let u = choose|u: nat|
                u < n && #[trigger] is_level(n, u, self.log_base as nat, self.max_level as nat, level as nat);
            assert(self.height_drawn(height as nat));
        }
        let storage: &InMemoryVectorStorage = &*self.vectors;
        let mut ep: Vec<u32> = Vec::new();
        ep.push(self.entry_point);
        let stop: usize = nl - levels_to_search;
        let mut l: usize = nl;
        while l > stop
            invariant
                stop == nl - levels_to_search,
                stop <= l <= nl,
                node < n,
                nl == self.levels@.len(),
                self.built_upto(node as nat),
                storage == *self.vectors,
                n == self.num_vectors(),
                ep@.len() > 0,
                forall|a: int| 0 <= a < ep@.len() ==> #[trigger] ep@[a] < node && l <= self.heights@[ep@[a] as int] + 1,
            decreases l,
        {
            l = l - 1;
            assert(self.levels@[l as int].wf());
            assert forall|a: int| 0 <= a < ep@.len() implies #[trigger] ep@[a] < self.levels@[l as int].num_nodes() by {}
            let candidates = beam_search(&self.levels[l], storage, &ep, node, 1);
            let sel = select_neighbors(&candidates, 1);
            assert forall|a: int| 0 <= a < sel@.len() implies (#[trigger] sel@[a]).1 < storage.spec_len()
                && sel@[a].0 == storage.dist(node as int, sel@[a].1 as int) by {
                assert(sel@.contains(sel@[a]));
                let b = choose|b: int| 0 <= b < candidates@.len() && candidates@[b] == sel@[a];
            }
            proof {
                let g = self.levels@[l as int];
                assert(candidates@.len() > 0);
                assert forall|a: int| 0 <= a < sel@.len() implies (#[trigger] sel@[a]).1 < node
                    && l <= self.heights@[sel@[a].1 as int] by {
                    assert(sel@.contains(sel@[a]));
                    let b = choose|b: int| 0 <= b < candidates@.len() && candidates@[b] == sel@[a];
                    let v = candidates@[b].1;
                    if ep@.contains(v) {
                        let c = choose|c: int| 0 <= c < ep@.len() && ep@[c] == v;
                    } else {
                        let i = choose|i: int| 0 <= i < g.num_nodes() && #[trigger] g.adj(i).contains(v);
                        let j = choose|j: int| 0 <= j < g.adj(i).len() && g.adj(i)[j] == v;
                        assert(g.adj(i)[j] < g.num_nodes());
                        assert(g.present@[v as int]);
                    }
                }
            }
            ep = ids_of(&sel, storage, node);
        }
        proof {
            lemma_count_true_pos(self.levels@[0].present@, 0);
        }
        let m = self.len();
        let ghost before = *self;
        self.heights.set(node as usize, height);
        let ghost hs = self.heights@;
        while l > 0
            invariant
                0 <= l <= height + 1,
                height < nl,
                nl == self.levels@.len(),
                storage == *self.vectors,
                n == self.num_vectors(),
                node < n,
                self.same_settings(&before),
                before.built_upto(node as nat),
                self.heights@ == hs,
                hs == before.heights@.update(node as int, height),
                self.entry_point == before.entry_point,
                forall|l2: int|
                    0 <= l2 < nl ==> (#[trigger] self.levels@[l2]).wf() && self.levels@[l2].num_nodes() == n
                        && degrees_within(self.levels@[l2], self.m_max as nat),
                forall|l2: int| 0 <= l2 < nl && self.ef_construction == 0 ==> edgeless(#[trigger] self.levels@[l2]),
                forall|l2: int, i: int|
                    0 <= l2 < nl && 0 <= i < n ==> (#[trigger] self.levels@[l2].present@[i] <==> ((i < node
                        && l2 <= hs[i]) || (i == node && l <= l2 <= height))),
                m > 0,
                self.ef_construction > 0 ==> ep@.len() > 0,
                forall|a: int| 0 <= a < ep@.len() ==> #[trigger] ep@[a] < node && l <= hs[ep@[a] as int] + 1,
                forall|l2: int| 0 <= l2 < l ==> #[trigger] self.levels@[l2] == before.levels@[l2],
                forall|l2: int| height < l2 < nl ==> #[trigger] self.levels@[l2] == before.levels@[l2],
                l == 0 && self.ef_construction > 0 && self.m_max > 0 ==> forall|i: int|
                    0 <= i < node + 1 ==> (#[trigger] self.levels@[0].adj(i)).len() > 0,
                forall|l2: int, i: int, x: u32|
                    0 <= l2 < nl && 0 <= i < n && i != node && #[trigger] self.levels@[l2].adj(i).contains(x)
                        ==> before.levels@[l2].adj(i).contains(x) || x == node,

                m == crate::graph::count_true(before.levels@[0].present@),
                forall|l2: int|
                    l <= l2 <= height ==> #[trigger] layer_insertion(
                        before.levels@[l2],
                        self.levels@[l2],
                        *storage,
                        node as int,
                        m as nat,
                        self.m_max as nat,
                        self.use_select_heuristic,
                        self.extend_candidates,
                    ),
            decreases l,
        {
            l = l - 1;
            let ghost prev = self.levels@;
            assert(prev[l as int] == before.levels@[l as int]);
            assert(!prev[l as int].present@[node as int]);
            let mut layer = GraphBuilder { present: Vec::new(), neighbors: Vec::new() };
            self.levels.set_and_swap(l, &mut layer);
            assert(layer == prev[l as int]);
            let candidates = match insert_into_layer(
                &mut layer,
                storage,
                node,
                &ep,
                m,
                self.ef_construction,
                self.m_max,
                self.use_select_heuristic,
                self.extend_candidates,
            ) {
                Ok(c) => c,
                Err(e) => {
                    return Err(e);
                },
            };
            self.levels.set(l, layer);
            assert(self.levels@ == prev.update(l as int, layer));
            ep = ids_of(&candidates, storage, node);
            proof {
                assert forall|a: int| 0 <= a < ep@.len() implies #[trigger] ep@[a] < node && l <= hs[ep@[a] as int] + 1 by {
                    assert(candidates@[a].1 != node && prev[l as int].present@[candidates@[a].1 as int]);
                }
                assert forall|l2: int| 0 <= l2 < l implies #[trigger] self.levels@[l2] == before.levels@[l2] by {
                    assert(self.levels@[l2] == prev[l2]);
                }
                assert forall|l2: int|
                    l <= l2 <= height implies #[trigger] layer_insertion(
                        before.levels@[l2],
                        self.levels@[l2],
                        *storage,
                        node as int,
                        m as nat,
                        self.m_max as nat,
                        self.use_select_heuristic,
                        self.extend_candidates,
                    ) by {
                    if l2 != l {
                        assert(self.levels@[l2] == prev[l2]);
                    }
                }
                assert forall|l2: int, i: int, x: u32|
                    0 <= l2 < nl && 0 <= i < n && i != node && #[trigger] self.levels@[l2].adj(i).contains(x)
                        implies before.levels@[l2].adj(i).contains(x) || x == node by {
                    if l2 != l {
                        assert(self.levels@[l2] == prev[l2]);
                    }
                }
                assert forall|l2: int| height < l2 < nl implies #[trigger] self.levels@[l2] == before.levels@[l2] by {
                    assert(self.levels@[l2] == prev[l2]);
                }
                if l == 0 && self.ef_construction > 0 && self.m_max > 0 {
                    let b0 = before.levels@[0];
                    assert forall|i: int| 0 <= i < node + 1 implies (#[trigger] self.levels@[0].adj(i)).len() > 0 by {
                        if i < node && node >= 2 {
                            assert(b0.adj(i).len() > 0);
                        } else if i < node {
                            let v = choose|v: int|
                                0 <= v < b0.num_nodes() && v != node && b0.present@[v] && #[trigger] layer.adj(v).len() > 0;
                            assert(v < node);
                        }
                    }
                }
            }
            assert forall|l2: int, i: int|
                0 <= l2 < nl && 0 <= i < n implies (#[trigger] self.levels@[l2].present@[i] <==> ((i < node
                    && l2 <= hs[i]) || (i == node && l <= l2 <= height))) by {
                if l2 != l {
                    assert(self.levels@[l2] == prev[l2]);
                }
            }
            assert forall|l2: int|
                0 <= l2 < nl implies (#[trigger] self.levels@[l2]).wf() && self.levels@[l2].num_nodes() == n
                    && degrees_within(self.levels@[l2], self.m_max as nat) by {
                if l2 != l {
                    assert(self.levels@[l2] == prev[l2]);
                }
            }
            assert forall|l2: int| 0 <= l2 < nl && self.ef_construction == 0 implies edgeless(#[trigger] self.levels@[l2]) by {
                if l2 != l {
                    assert(self.levels@[l2] == prev[l2]);
                }
            }
        }
        if height > self.heights[self.entry_point as usize] {
            self.entry_point = node;
        }
        proof {
            assert forall|i: int| 1 <= i < node + 1 implies self.height_drawn(#[trigger] self.heights@[i] as nat) by {
                if i < node {
                    assert(self.heights@[i] == before.heights@[i]);
                    assert(before.height_drawn(before.heights@[i] as nat));
                }
            }
            assert forall|i: int| 0 <= i < node + 1 implies #[trigger] self.heights@[i] <= self.heights@[self.entry_point as int] by {
                if i < node {
                    assert(self.heights@[i] == before.heights@[i]);
                    assert(before.heights@[i] <= before.heights@[before.entry_point as int]);
                }
            }
        }
        Ok(())
    }

    /// Builds the graph, with the builder's own vectors as backing storage.
    pub fn build(&mut self) -> (r: Result<HNSW, HnswError>)
        requires
            old(self).vectors.wf(),
            old(self).log_base >= 2,
            old(self).levels@.len() == 0,
            old(self).max_level > 0 || old(self).num_vectors() <= 1,
        ensures
            r matches Ok(h) && old(self).finished(&h) && h.storage == old(self).vectors,
            final(self).same_settings(&*old(self)),
    {
        let storage = self.vectors.clone();
        self.build_with(storage)
    }

    /// What a completed build over these settings yields: one layer per
    /// level over all node ids; node `i` in layers `0..=heights[i]` and in no
    /// other, node 0 in all; each height above 0 drawn by the level formula;
    /// every adjacency list within `m_max`, each edge joining two distinct
    /// members of its layer; no edge at all when `ef_construction` is 0;
    /// with two or more nodes and positive width and bound, at least one
    /// base-layer edge at every node; an entry point of the greatest height;
    /// and a record of the build, one [`insertion_step`] per node in id order,
    /// that fixes every edge from the heights and the search results.
    /// `hist` records a build of `h`: it starts from the seed layers, each
    /// next entry inserts the next node with its recorded height, and it ends
    /// with the layers of `h`.
    pub open spec fn build_history(&self, h: &HNSW, hist: Seq<Seq<GraphBuilder>>) -> bool {
        let n = self.num_vectors();
        &&& hist.len() == n
        &&& seed_layers(hist[0], n, self.max_level as nat)
        &&& hist[n - 1] == h.levels@
        &&& forall|i: int|
            1 <= i < n ==> #[trigger] insertion_step(
                hist[i - 1],
                hist[i],
                *self.vectors,
                i,
                h.heights@[i] as int,
                self.m_max as nat,
                self.use_select_heuristic,
                self.extend_candidates,
            )
    }

    pub open spec fn finished(&self, h: &HNSW) -> bool {
        let n = self.num_vectors();
        let nl = self.max_level as nat;
        &&& h.levels@.len() == nl
        &&& h.heights@.len() == n
        &&& h.use_select_heuristic == self.use_select_heuristic
        &&& forall|l: int|
            0 <= l < nl ==> (#[trigger] h.levels@[l]).wf() && h.levels@[l].num_nodes() == n
                && degrees_within(h.levels@[l], self.m_max as nat)
        &&& forall|l: int| 0 <= l < nl && self.ef_construction == 0 ==> edgeless(#[trigger] h.levels@[l])
        &&& forall|l: int, i: int|
            0 <= l < nl && 0 <= i < n ==> (#[trigger] h.levels@[l].present@[i] <==> l <= h.heights@[i])
        &&& n >= 2 && self.ef_construction > 0 && self.m_max > 0 ==> forall|i: int|
            0 <= i < n ==> (#[trigger] h.levels@[0].adj(i)).len() > 0
        &&& n > 0 && nl > 0 ==> exists|hist: Seq<Seq<GraphBuilder>>| #[trigger] self.build_history(h, hist)
        &&& n > 0 && nl > 0 ==> {
            &&& h.entry_point < n
            &&& h.heights@[0] == nl - 1
            &&& forall|i: int| 1 <= i < n ==> self.height_drawn(#[trigger] h.heights@[i] as nat)
            &&& forall|i: int| 0 <= i < n ==> #[trigger] h.heights@[i] <= h.heights@[h.entry_point as int]
        }
    }

    /// Builds the graph, with `storage` as backing storage of the result.
    pub fn build_with(&mut self, storage: Arc<InMemoryVectorStorage>) -> (r: Result<HNSW, HnswError>)
        requires
            old(self).vectors.wf(),
            old(self).log_base >= 2,
            old(self).levels@.len() == 0,
            old(self).max_level > 0 || old(self).num_vectors() <= 1,
        ensures
            r matches Ok(h) && old(self).finished(&h) && h.storage == storage,
            final(self).same_settings(&*old(self)),
    {
        let ghost start = *self;
        let n = self.vectors.len();
        let mut k: u16 = 0;
        while k < self.max_level
            invariant
                0 <= k <= self.max_level,
                self.levels@.len() == k,
                self.same_settings(&start),
                n == self.num_vectors(),
                n <= u32::MAX,
                forall|l: int|
                    0 <= l < k ==> (#[trigger] self.levels@[l]).wf() && self.levels@[l].num_nodes() == n
                        && edgeless(self.levels@[l]),
                forall|l: int, i: int|
                    0 <= l < k && 0 <= i < n ==> (#[trigger] self.levels@[l].present@[i] <==> i == 0),
            decreases self.max_level - k,
        {
            let mut level = GraphBuilder::new(n);
            let ghost fresh = level;
            if n > 0 {
                level.insert(0);
            }
            assert forall|i: int| 0 <= i < n implies (#[trigger] level.adj(i)).len() == 0 by {
                assert(level.adj(i) == fresh.adj(i));
            }
            let ghost prev = self.levels@;
            self.levels.push(level);
            assert forall|l: int, i: int|
                0 <= l < k + 1 && 0 <= i < n implies (#[trigger] self.levels@[l].present@[i] <==> i == 0) by {
                if l < k {
                    assert(self.levels@[l] == prev[l]);
                }
            }
            k = k + 1;
        }
        let mut heights: Vec<u16> = Vec::new();
        let mut i: usize = 0;
        while i < n
            invariant
                0 <= i <= n,
                heights@.len() == i,
                forall|a: int| 0 <= a < i ==> #[trigger] heights@[a] == 0,
            decreases n - i,
        {
            heights.push(0);
            i = i + 1;
        }
        if n > 0 && self.max_level > 0 {
            heights.set(0, self.max_level - 1);
        }
        self.heights = heights;
        self.entry_point = 0;
        let ghost mut hist: Seq<Seq<GraphBuilder>> = seq![self.levels@];
        assert(seed_layers(hist[0], n as nat, self.max_level as nat)) by {
            assert forall|l: int| 0 <= l < self.max_level implies edgeless(#[trigger] self.levels@[l]) by {}
        }
        if n > 0 && self.max_level > 0 {
            assert(self.built_upto(1)) by {
                assert forall|l: int| 0 <= l < self.levels@.len() && self.ef_construction == 0 implies edgeless(
                    #[trigger] self.levels@[l],
                ) by {}
                assert forall|l: int| 0 <= l < self.levels@.len() implies degrees_within(
                    #[trigger] self.levels@[l],
                    self.m_max as nat,
                ) by {
                    assert(edgeless(self.levels@[l]));
                }
            }
            let mut i: usize = 1;
            while i < n
                invariant
                    1 <= i <= n,
                    n == self.num_vectors(),
                    self.built_upto(i as nat),
                    self.same_settings(&start),
                    hist.len() == i,
                    seed_layers(hist[0], n as nat, self.max_level as nat),
                    hist[i - 1] == self.levels@,
                    forall|j: int|
                        1 <= j < i ==> #[trigger] insertion_step(
                            hist[j - 1],
                            hist[j],
                            *self.vectors,
                            j,
                            self.heights@[j] as int,
                            self.m_max as nat,
                            self.use_select_heuristic,
                            self.extend_candidates,
                        ),
                decreases n - i,
            {
                let ghost pre = *self;
                match self.insert(i as u32) {
                    Ok(()) => {},
                    Err(e) => {
                        return Err(e);
                    },
                }
                proof {
                    let h0 = hist;
                    hist = hist.push(self.levels@);
                    assert(insertion_step(
                        h0[i - 1],
                        hist[i as int],
                        *self.vectors,
                        i as int,
                        self.heights@[i as int] as int,
                        self.m_max as nat,
                        self.use_select_heuristic,
                        self.extend_candidates,
                    )) by {
                        assert(h0[i - 1] == pre.levels@);
                    }
                    assert forall|j: int|
                        1 <= j < i + 1 implies #[trigger] insertion_step(
                            hist[j - 1],
                            hist[j],
                            *self.vectors,
                            j,
                            self.heights@[j] as int,
                            self.m_max as nat,
                            self.use_select_heuristic,
                            self.extend_candidates,
                        ) by {
                        if j < i {
                            assert(hist[j - 1] == h0[j - 1] && hist[j] == h0[j]);
                            assert(self.heights@[j] == pre.heights@[j]);
                        }
                    }
                }
                i = i + 1;
            }
        }
        let mut levels: Vec<GraphBuilder> = Vec::new();
        std::mem::swap(&mut levels, &mut self.levels);
        let mut heights: Vec<u16> = Vec::new();
        std::mem::swap(&mut heights, &mut self.heights);
        let h = HNSW {
            levels,
            entry_point: self.entry_point,
            heights,
            storage,
            use_select_heuristic: self.use_select_heuristic,
        };
        proof {
            if n == 0 || self.max_level == 0 {
                assert forall|l: int, i: int|
                    0 <= l < self.max_level && 0 <= i < n implies (#[trigger] h.levels@[l].present@[i] <==> l
                        <= h.heights@[i]) by {
                    assert(false);
                }
                assert forall|l: int| 0 <= l < self.max_level implies degrees_within(
                    #[trigger] h.levels@[l],
                    self.m_max as nat,
                ) by {
                    assert(edgeless(h.levels@[l]));
                }
            } else {
                assert(start.build_history(&h, hist));
            }
        }
        Ok(h)
    }
}

} // verus!

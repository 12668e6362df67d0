use vstd::prelude::*;

use crate::error::HnswError;
use crate::order::{Scored, scored_lt, sort_scored, strictly_sorted};
use crate::storage::InMemoryVectorStorage;

verus! {

/// Number of `true` entries.
pub open spec fn count_true(s: Seq<bool>) -> nat
    decreases s.len(),
{
    if s.len() == 0 {
        0
    } else {
        count_true(s.drop_last()) + if s.last() { 1nat } else { 0nat }
    }
}

pub proof fn lemma_count_true_pos(s: Seq<bool>, i: int)
    requires
        0 <= i < s.len(),
        s[i],
    ensures
        count_true(s) > 0,
    decreases s.len(),
{
    if i < s.len() - 1 {
        lemma_count_true_pos(s.drop_last(), i);
    }
}

/// The adjacency list `s` of node `owner` after an edge to `x` is added.
pub open spec fn linked(s: Seq<u32>, x: u32, owner: u32) -> Seq<u32> {
    if x == owner || s.contains(x) { s } else { s.push(x) }
}

/// `new` is `old` cut down to at most `bound` ids, keeping those closest to
/// node `q` (ties broken by id); a list within the bound stays as it is.
pub open spec fn pruned(
    storage: InMemoryVectorStorage,
    q: int,
    old: Seq<u32>,
    new: Seq<u32>,
    bound: nat,
) -> bool {
    &&& new.len() == if old.len() <= bound { old.len() } else { bound }
    &&& forall|x: u32| #[trigger] new.contains(x) ==> old.contains(x)
    &&& forall|x: u32, y: u32|
        #[trigger] new.contains(x) && #[trigger] old.contains(y) && !new.contains(y) ==> scored_lt(
            (storage.dist(q, x as int), x),
            (storage.dist(q, y as int), y),
        )
    &&& old.len() <= bound ==> new == old
}

/// One layer of the graph under construction: which nodes it holds, and the
/// adjacency list of each node. Node ids range over the whole vector source.
pub struct GraphBuilder {
    pub present: Vec<bool>,
    pub neighbors: Vec<Vec<u32>>,
}

fn contains_id(list: &Vec<u32>, x: u32) -> (r: bool)
    ensures
        r == list@.contains(x),
{
    let mut i: usize = 0;
    while i < list.len()
        invariant
            0 <= i <= list@.len(),
            forall|k: int| 0 <= k < i ==> list@[k] != x,
        decreases list@.len() - i,
    {
        if list[i] == x {
            return true;
        }
        i = i + 1;
    }
    false
}

impl GraphBuilder {
    pub open spec fn num_nodes(&self) -> nat {
        self.present@.len()
    }

    pub open spec fn adj(&self, i: int) -> Seq<u32> {
        self.neighbors@[i]@
    }

    /// Adjacency lists exist for every node and repeat no id; an edge joins
    /// two distinct members of the layer.
    pub open spec fn wf(&self) -> bool {
        &&& self.neighbors@.len() == self.present@.len()
        &&& self.present@.len() <= u32::MAX
        &&& forall|i: int| 0 <= i < self.num_nodes() ==> (#[trigger] self.adj(i)).no_duplicates()
        &&& forall|i: int, j: int|
            0 <= i < self.num_nodes() && 0 <= j < self.adj(i).len() ==> #[trigger] self.adj(i)[j]
                < self.num_nodes() && self.adj(i)[j] != i && self.present@[i] && self.present@[self.adj(
                i,
            )[j] as int]
    }

    /// Some adjacency list holds `v`.
    pub open spec fn has_incoming(&self, v: int) -> bool {
        exists|i: int| 0 <= i < self.num_nodes() && #[trigger] self.adj(i).contains(v as u32)
    }

    /// An empty layer over `n` node ids.
    pub fn new(n: usize) -> (r: Self)
        requires
            n <= u32::MAX,
        ensures
            r.wf(),
            r.num_nodes() == n,
            forall|i: int| 0 <= i < n ==> !(#[trigger] r.present@[i]),
            forall|i: int| 0 <= i < n ==> (#[trigger] r.adj(i)).len() == 0,
    {
        let mut present: Vec<bool> = Vec::new();
        let mut neighbors: Vec<Vec<u32>> = Vec::new();
        let mut i: usize = 0;
        while i < n
            invariant
                0 <= i <= n,
                present@.len() == i,
                neighbors@.len() == i,
                forall|k: int| 0 <= k < i ==> !(#[trigger] present@[k]),
                forall|k: int| 0 <= k < i ==> (#[trigger] neighbors@[k])@.len() == 0,
            decreases n - i,
        {
            present.push(false);
            neighbors.push(Vec::new());
            i = i + 1;
        }
        let r = GraphBuilder { present, neighbors };
        assert forall|i: int| 0 <= i < r.num_nodes() implies (#[trigger] r.adj(i)).no_duplicates() by {
            assert(r.adj(i).len() == 0);
        }
        r
    }

    /// Marks `node` as a member of this layer.
    pub fn insert(&mut self, node: u32)
        requires
            old(self).wf(),
            node < old(self).num_nodes(),
        ensures
            final(self).wf(),
            final(self).present@ == old(self).present@.update(node as int, true),
            final(self).neighbors@ == old(self).neighbors@,
    {
        self.present.set(node as usize, true);
        assert(self.num_nodes() == old(self).num_nodes());
        assert forall|i: int| 0 <= i < self.num_nodes() implies #[trigger] self.adj(i) == old(self).adj(i) by {}
        assert forall|i: int, j: int|
            0 <= i < self.num_nodes() && 0 <= j < self.adj(i).len() implies #[trigger] self.adj(i)[j]
                < self.num_nodes() && self.adj(i)[j] != i && self.present@[i] && self.present@[self.adj(
                i,
            )[j] as int] by {
            assert(self.adj(i) == old(self).adj(i));
            assert(old(self).adj(i)[j] < old(self).num_nodes());
        }
    }

    /// Whether `node` is a member of this layer.
    pub fn contains(&self, node: u32) -> (r: bool)
        requires
            node < self.num_nodes(),
        ensures
            r == self.present@[node as int],
    {
        self.present[node as usize]
    }

    /// Number of member nodes.
    pub fn len(&self) -> (r: usize)
        ensures
            r == count_true(self.present@),
    {
        let mut c: usize = 0;
        let mut i: usize = 0;
        while i < self.present.len()
            invariant
                0 <= i <= self.present@.len(),
                c == count_true(self.present@.subrange(0, i as int)),
                c <= i,
            decreases self.present@.len() - i,
        {
            assert(self.present@.subrange(0, i + 1).drop_last() =~= self.present@.subrange(0, i as int));
            if self.present[i] {
                c = c + 1;
            }
            i = i + 1;
        }
        assert(self.present@.subrange(0, i as int) =~= self.present@);
        c
    }

    /// The adjacency list of `node`.
    pub fn neighbors(&self, node: u32) -> (r: &Vec<u32>)
        requires
            self.wf(),
            node < self.num_nodes(),
        ensures
            r@ == self.adj(node as int),
    {
        &self.neighbors[node as usize]
    }

    /// Adds `to` to the adjacency list of `from`, unless it is there or is `from`.
    fn link(&mut self, from: u32, to: u32)
        requires
            old(self).wf(),
            from < old(self).num_nodes(),
            to < old(self).num_nodes(),
            old(self).present@[from as int],
            old(self).present@[to as int],
        ensures
            final(self).wf(),
            final(self).present@ == old(self).present@,
            final(self).neighbors@.len() == old(self).neighbors@.len(),
            final(self).adj(from as int) == linked(old(self).adj(from as int), to, from),
            forall|i: int| 0 <= i < old(self).num_nodes() && i != from ==> #[trigger] final(self).adj(i) == old(self).adj(i),
    {
        if from == to {
            return;
        }
        let mut list: Vec<u32> = Vec::new();
        self.neighbors.set_and_swap(from as usize, &mut list);
        if !contains_id(&list, to) {
            list.push(to);
        }
        self.neighbors.set(from as usize, list);
        assert forall|i: int| 0 <= i < self.num_nodes() implies (#[trigger] self.adj(i)).no_duplicates() by {
            if i == from {
                assert(self.adj(i) == linked(old(self).adj(from as int), to, from));
                assert(old(self).adj(i).no_duplicates());
            } else {
                assert(self.adj(i) == old(self).adj(i));
            }
        }
        assert forall|i: int, j: int|
            0 <= i < self.num_nodes() && 0 <= j < self.adj(i).len() implies #[trigger] self.adj(i)[j]
                < self.num_nodes() && self.adj(i)[j] != i && self.present@[i] && self.present@[self.adj(
                i,
            )[j] as int] by {
            if i == from {
                if j < old(self).adj(i).len() {
                    assert(self.adj(i)[j] == old(self).adj(i)[j]);
                }
            } else {
                assert(self.adj(i) == old(self).adj(i));
            }
        }
    }

    /// Adds an edge between `a` and `b`, in both adjacency lists (none when
    /// `a == b`). Fails when either id is not a member of the layer.
    pub fn connect(&mut self, a: u32, b: u32) -> (r: Result<(), HnswError>)
        requires
            old(self).wf(),
        ensures
            final(self).wf(),
            r is Err <==> a >= old(self).num_nodes() || b >= old(self).num_nodes() || !old(self).present@[a as int]
                || !old(self).present@[b as int],
            r is Err ==> r == Err::<(), HnswError>(HnswError::InvalidNode) && *final(self) == *old(self),
            final(self).present@ == old(self).present@,
            final(self).neighbors@.len() == old(self).neighbors@.len(),
            r is Ok ==> final(self).adj(a as int) == linked(old(self).adj(a as int), b, a),
            r is Ok ==> final(self).adj(b as int) == linked(old(self).adj(b as int), a, b),
            r is Ok ==> forall|i: int|
                0 <= i < old(self).num_nodes() && i != a && i != b ==> #[trigger] final(self).adj(i)
                    == old(self).adj(i),
    {
        if a as usize >= self.present.len() || b as usize >= self.present.len() || !self.present[a as usize]
            || !self.present[b as usize] {
            return Err(HnswError::InvalidNode);
        }
        self.link(a, b);
        self.link(b, a);
        Ok(())
    }

    /// Cuts the adjacency list of `node` down to the `bound` neighbors closest
    /// to it (ties broken by id). Fails when `node` is not a node id of the layer.
    pub fn prune(&mut self, node: u32, bound: usize, storage: &InMemoryVectorStorage) -> (r: Result<
        (),
        HnswError,
    >)
        requires
            old(self).wf(),
            storage.wf(),
            storage.spec_len() == old(self).num_nodes(),
        ensures
            final(self).wf(),
            r is Err <==> node >= old(self).num_nodes(),
            r is Err ==> r == Err::<(), HnswError>(HnswError::InvalidNode) && *final(self) == *old(self),
            final(self).present@ == old(self).present@,
            final(self).neighbors@.len() == old(self).neighbors@.len(),
            r is Ok ==> pruned(
                *storage,
                node as int,
                old(self).adj(node as int),
                final(self).adj(node as int),
                bound as nat,
            ),
            forall|i: int| 0 <= i < old(self).num_nodes() && i != node ==> #[trigger] final(self).adj(i) == old(self).adj(i),
    {
        if node as usize >= self.present.len() {
            return Err(HnswError::InvalidNode);
        }
        let n = node as usize;
        if self.neighbors[n].len() <= bound {
            return Ok(());
        }
        let ghost old_list = self.adj(n as int);
        let mut scored: Vec<Scored> = Vec::new();
        let list = &self.neighbors[n];
        let mut j: usize = 0;
        while j < list.len()
            invariant
                0 <= j <= list@.len(),
                list@ == old_list,
                self.wf(),
                n < self.num_nodes(),
                n == node as usize,
                old_list == self.adj(n as int),
                storage.wf(),
                storage.spec_len() == self.num_nodes(),
                scored@.len() == j,
                forall|k: int| 0 <= k < j ==> #[trigger] scored@[k] == (storage.dist(n as int, list@[k] as int), list@[k]),
            decreases list@.len() - j,
        {
            assert(list@[j as int] < self.num_nodes());
            let d = storage.distance(node, list[j]);
            scored.push((d, list[j]));
            j = j + 1;
        }
        assert(scored@.no_duplicates()) by {
            assert(old_list.no_duplicates());
            assert forall|a: int, b: int| 0 <= a < b < scored@.len() implies scored@[a] != scored@[b] by {
                assert(old_list[a] != old_list[b]);
            }
        }
        let sorted = sort_scored(&scored);
        let mut kept: Vec<u32> = Vec::new();
        let mut k: usize = 0;
        while k < bound
            invariant
                0 <= k <= bound,
                bound < sorted@.len(),
                sorted@.len() == old_list.len(),
                strictly_sorted(sorted@),
                kept@.len() == k,
                forall|a: int| 0 <= a < k ==> #[trigger] kept@[a] == sorted@[a].1,
            decreases bound - k,
        {
            kept.push(sorted[k].1);
            k = k + 1;
        }
        proof {
            // every sorted entry is a scored neighbor
            assert forall|a: int| 0 <= a < sorted@.len() implies (#[trigger] sorted@[a]).0 == storage.dist(
                n as int,
                sorted@[a].1 as int,
            ) && old_list.contains(sorted@[a].1) by {
                assert(sorted@.contains(sorted@[a]));
                let b = choose|b: int| 0 <= b < scored@.len() && scored@[b] == sorted@[a];
                assert(old_list[b] == sorted@[a].1);
            }
            assert forall|x: u32| #[trigger] kept@.contains(x) implies old_list.contains(x) by {
                let a = choose|a: int| 0 <= a < kept@.len() && kept@[a] == x;
                assert(sorted@[a].1 == x);
            }
            assert forall|x: u32, y: u32|
                #[trigger] kept@.contains(x) && #[trigger] old_list.contains(y) && !kept@.contains(y) implies scored_lt(
                (storage.dist(n as int, x as int), x),
                (storage.dist(n as int, y as int), y),
            ) by {
                let a = choose|a: int| 0 <= a < kept@.len() && kept@[a] == x;
                let c = choose|c: int| 0 <= c < old_list.len() && old_list[c] == y;
                assert(scored@[c] == (storage.dist(n as int, y as int), y));
                assert(scored@.contains(scored@[c]));
                assert(sorted@.contains(scored@[c]));
                let b = choose|b: int| 0 <= b < sorted@.len() && sorted@[b] == scored@[c];
                if b < bound {
                    assert(kept@[b] == y);
                }
                assert(sorted@[a].1 == x);
                assert(scored_lt(sorted@[a], sorted@[b]));
            }
            assert forall|a: int, b: int| 0 <= a < b < kept@.len() implies kept@[a] != kept@[b] by {
                assert(scored_lt(sorted@[a], sorted@[b]));
            }
            assert forall|a: int| 0 <= a < kept@.len() implies #[trigger] kept@[a] < self.num_nodes()
                && kept@[a] != n && self.present@[n as int] && self.present@[kept@[a] as int] by {
                assert(old_list.contains(kept@[a]));
                let c = choose|c: int| 0 <= c < old_list.len() && old_list[c] == kept@[a];
                assert(self.adj(n as int)[c] < self.num_nodes());
            }
        }
        self.neighbors.set(n, kept);
        assert forall|i: int| 0 <= i < self.num_nodes() && i != n implies #[trigger] self.adj(i) == old(self).adj(i) by {}
        assert forall|i: int, j: int|
            0 <= i < self.num_nodes() && 0 <= j < self.adj(i).len() implies #[trigger] self.adj(i)[j]
                < self.num_nodes() && self.adj(i)[j] != i && self.present@[i] && self.present@[self.adj(
                i,
            )[j] as int] by {
            if i != n {
                assert(self.adj(i) == old(self).adj(i));
            } else {
                assert(self.adj(i)[j] == kept@[j]);
            }
        }
        assert forall|i: int| 0 <= i < self.num_nodes() implies (#[trigger] self.adj(i)).no_duplicates() by {
            if i != n {
                assert(self.adj(i) == old(self).adj(i));
            }
        }
        Ok(())
    }
}

} // verus!

use vstd::prelude::*;

use crate::error::HnswError;
use crate::order::Scored;

verus! {

/// Sum of the squared coordinate differences over the first `i` coordinates.
pub open spec fn sq_dist_upto(a: Seq<i32>, b: Seq<i32>, i: int) -> int
    decreases i,
{
    if i <= 0 {
        0
    } else {
        sq_dist_upto(a, b, i - 1) + (a[i - 1] - b[i - 1]) * (a[i - 1] - b[i - 1])
    }
}

/// Squared euclidean distance between two vectors of equal length.
pub open spec fn sq_dist(a: Seq<i32>, b: Seq<i32>) -> int {
    sq_dist_upto(a, b, a.len() as int)
}

/// A mathematical value cut off at `u64::MAX`.
pub open spec fn saturate(x: int) -> u64 {
    if x >= u64::MAX { u64::MAX } else if x <= 0 { 0 } else { x as u64 }
}

proof fn lemma_sq_dist_upto_nonneg(a: Seq<i32>, b: Seq<i32>, i: int)
    ensures
        sq_dist_upto(a, b, i) >= 0,
    decreases i,
{
    if i > 0 {
        lemma_sq_dist_upto_nonneg(a, b, i - 1);
        let d = a[i - 1] - b[i - 1];
        assert(d * d >= 0) by (nonlinear_arith);
    }
}

/// Read-only vectors of one common dimension, with the squared euclidean
/// distance (saturated at `u64::MAX`) as metric. Node `i` is vector `i`.
pub struct InMemoryVectorStorage {
    pub dim: usize,
    pub vectors: Vec<Vec<i32>>,
}

impl InMemoryVectorStorage {
    /// Every vector has `dim` coordinates and every node id fits in a `u32`.
    pub open spec fn wf(&self) -> bool {
        &&& self.vectors@.len() <= u32::MAX
        &&& forall|i: int| 0 <= i < self.vectors@.len() ==> #[trigger] self.vectors@[i]@.len() == self.dim
    }

    /// Number of vectors.
    pub open spec fn spec_len(&self) -> nat {
        self.vectors@.len()
    }

    /// Every entry of `s` is a node id paired with its distance to node `q`.
    pub open spec fn scores_for(&self, q: int, s: Seq<Scored>) -> bool {
        forall|k: int|
            0 <= k < s.len() ==> (#[trigger] s[k]).1 < self.spec_len() && s[k].0 == self.dist(
                q,
                s[k].1 as int,
            )
    }

    /// Distance between nodes `a` and `b`.
    pub open spec fn dist(&self, a: int, b: int) -> u64 {
        saturate(sq_dist(self.vectors@[a]@, self.vectors@[b]@))
    }

    /// Takes the vectors; fails when they do not all have the same length.
    pub fn try_new(vectors: Vec<Vec<i32>>) -> (r: Result<Self, HnswError>)
        requires
            vectors@.len() <= u32::MAX,
        ensures
            r is Ok <==> forall|i: int, j: int|
                0 <= i < vectors@.len() && 0 <= j < vectors@.len() ==> #[trigger] vectors@[i]@.len()
                    == #[trigger] vectors@[j]@.len(),
            r is Err ==> r == Err::<Self, HnswError>(HnswError::DimensionMismatch),
            r matches Ok(s) ==> s.wf() && s.vectors@ == vectors@,
    {
        let dim: usize = if vectors.len() == 0 { 0 } else { vectors[0].len() };
        let mut i: usize = 0;
        while i < vectors.len()
            invariant
                0 <= i <= vectors@.len(),
                vectors@.len() > 0 ==> dim == vectors@[0]@.len(),
                forall|k: int| 0 <= k < i ==> #[trigger] vectors@[k]@.len() == dim,
            decreases vectors@.len() - i,
        {
            if vectors[i].len() != dim {
                assert(vectors@[0]@.len() != vectors@[i as int]@.len());
                return Err(HnswError::DimensionMismatch);
            }
            i = i + 1;
        }
        Ok(InMemoryVectorStorage { dim, vectors })
    }

    /// Number of vectors.
    pub fn len(&self) -> (r: usize)
        ensures
            r == self.spec_len(),
    {
        self.vectors.len()
    }

    /// Distance between nodes `a` and `b`.
    pub fn distance(&self, a: u32, b: u32) -> (r: u64)
        requires
            self.wf(),
            a < self.spec_len(),
            b < self.spec_len(),
        ensures
            r == self.dist(a as int, b as int),
    {
        let va = &self.vectors[a as usize];
        let vb = &self.vectors[b as usize];
        assert(va@.len() == self.dim && vb@.len() == self.dim);
        let mut acc: u64 = 0;
        let mut i: usize = 0;
        while i < self.dim
            invariant
                0 <= i <= self.dim,
                va@.len() == self.dim,
                vb@.len() == self.dim,
                acc == saturate(sq_dist_upto(va@, vb@, i as int)),
            decreases self.dim - i,
        {
            let diff: i64 = va[i] as i64 - vb[i] as i64;
            let ad: u64 = if diff < 0 { (-diff) as u64 } else { diff as u64 };
            assert(ad * ad <= u64::MAX) by (nonlinear_arith)
                requires ad <= 0xffff_ffffu64;
            let sq: u64 = ad * ad;
            assert(sq == (va@[i as int] - vb@[i as int]) * (va@[i as int] - vb@[i as int])) by (nonlinear_arith)
                requires ad == diff || ad == -diff, diff == va@[i as int] - vb@[i as int], sq == ad * ad;
            proof {
                lemma_sq_dist_upto_nonneg(va@, vb@, i as int);
            }
            acc = if acc > u64::MAX - sq { u64::MAX } else { acc + sq };
            i = i + 1;
        }
        acc
    }
}

} // verus!

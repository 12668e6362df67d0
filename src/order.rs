use vstd::prelude::*;

verus! {

/// A candidate: its distance to the query, then its node id.
pub type Scored = (u64, u32);

/// Candidates are ordered by distance, ties broken by id.
pub open spec fn scored_lt(a: Scored, b: Scored) -> bool {
    a.0 < b.0 || (a.0 == b.0 && a.1 < b.1)
}

pub open spec fn strictly_sorted(s: Seq<Scored>) -> bool {
    forall|i: int, j: int| 0 <= i < j < s.len() ==> scored_lt(#[trigger] s[i], #[trigger] s[j])
}

pub fn scored_less(a: Scored, b: Scored) -> (r: bool)
    ensures
        r == scored_lt(a, b),
{
    a.0 < b.0 || (a.0 == b.0 && a.1 < b.1)
}

/// Puts `x` into the sorted list `v` at its place.
pub fn insert_sorted(v: &mut Vec<Scored>, x: Scored)
    requires
        strictly_sorted(old(v)@),
        !old(v)@.contains(x),
    ensures
        strictly_sorted(final(v)@),
        final(v)@.len() == old(v)@.len() + 1,
        forall|y: Scored| #[trigger] final(v)@.contains(y) <==> (y == x || old(v)@.contains(y)),
{
    let mut pos: usize = 0;
    while pos < v.len() && !scored_less(x, v[pos])
        invariant
            0 <= pos <= v@.len(),
            v@ == old(v)@,
            !v@.contains(x),
            forall|k: int| 0 <= k < pos ==> scored_lt(#[trigger] v@[k], x),
        decreases v@.len() - pos,
    {
        assert(v@.contains(v@[pos as int]));
        assert(v@[pos as int].0 != x.0 || v@[pos as int].1 != x.1);
        assert(scored_lt(v@[pos as int], x));
        pos = pos + 1;
    }
    proof {
        if pos < v@.len() {
            assert forall|k: int| pos <= k < v@.len() implies scored_lt(x, #[trigger] v@[k]) by {
                if k > pos {
                    assert(scored_lt(v@[pos as int], v@[k]));
                }
            }
        }
    }
    let ghost before = v@;
    v.insert(pos, x);
    assert(v@ == before.insert(pos as int, x));
    assert(v@[pos as int] == x);
    assert forall|y: Scored| #[trigger] v@.contains(y) <==> (y == x || before.contains(y)) by {
        if v@.contains(y) {
            let k = choose|k: int| 0 <= k < v@.len() && v@[k] == y;
            if k < pos {
                assert(before[k] == y);
            } else if k > pos {
                assert(before[k - 1] == y);
            }
        }
        if before.contains(y) {
            let k = choose|k: int| 0 <= k < before.len() && before[k] == y;
            if k < pos {
                assert(v@[k] == y);
            } else {
                assert(v@[k + 1] == y);
            }
        }
    }
}

/// Returns the candidates sorted by distance, ties broken by id.
pub fn sort_scored(v: &Vec<Scored>) -> (r: Vec<Scored>)
    requires
        v@.no_duplicates(),
    ensures
        strictly_sorted(r@),
        r@.len() == v@.len(),
        forall|y: Scored| #[trigger] r@.contains(y) <==> v@.contains(y),
{
    let mut r: Vec<Scored> = Vec::new();
    let mut i: usize = 0;
    while i < v.len()
        invariant
            0 <= i <= v@.len(),
            v@.no_duplicates(),
            strictly_sorted(r@),
            r@.len() == i,
            forall|y: Scored| #[trigger] r@.contains(y) <==> v@.subrange(0, i as int).contains(y),
        decreases v@.len() - i,
    {
        proof {
            if v@.subrange(0, i as int).contains(v@[i as int]) {
                let k = choose|k: int| 0 <= k < i && v@.subrange(0, i as int)[k] == v@[i as int];
                assert(v@[k] == v@[i as int]);
            }
        }
        insert_sorted(&mut r, v[i]);
        proof {
            let s1 = v@.subrange(0, i + 1);
            assert forall|y: Scored| #[trigger] r@.contains(y) <==> s1.contains(y) by {
                if s1.contains(y) {
                    let k = choose|k: int| 0 <= k < s1.len() && s1[k] == y;
                    if k < i {
                        assert(v@.subrange(0, i as int)[k] == y);
                    }
                }
                if v@.subrange(0, i as int).contains(y) {
                    let k = choose|k: int| 0 <= k < i && v@.subrange(0, i as int)[k] == y;
                    assert(s1[k] == y);
                }
                if y == v@[i as int] {
                    assert(s1[i as int] == y);
                }
            }
        }
        i = i + 1;
    }
    assert(v@.subrange(0, v@.len() as int) == v@);
    r
}

} // verus!

//! Stable ordering of candidates by distance.
//!
//! A candidate is a pair `(distance, index)`: the distance is an
//! order-preserving key (smaller is more similar) and the index points back
//! to whatever produced the candidate.
use vstd::prelude::*;

verus! {

/// Inserts `x` after every element whose distance does not exceed its own,
/// scanning from the back: equal distances keep their arrival order.
pub open spec fn insert_sorted(s: Seq<(u64, usize)>, x: (u64, usize)) -> Seq<(u64, usize)>
    decreases s.len(),
{
    if s.len() == 0 {
        seq![x]
    } else if s.last().0 <= x.0 {
        s.push(x)
    } else {
        insert_sorted(s.drop_last(), x).push(s.last())
    }
}

/// Where `insert_sorted` places `x`.
pub open spec fn insert_pos(s: Seq<(u64, usize)>, x: (u64, usize)) -> int
    decreases s.len(),
{
    if s.len() == 0 {
        0
    } else if s.last().0 <= x.0 {
        s.len() as int
    } else {
        insert_pos(s.drop_last(), x)
    }
}

/// Stable insertion sort by distance.
pub open spec fn sort_by_distance(s: Seq<(u64, usize)>) -> Seq<(u64, usize)>
    decreases s.len(),
{
    if s.len() == 0 {
        s
    } else {
        insert_sorted(sort_by_distance(s.drop_last()), s.last())
    }
}

pub open spec fn sorted_by_distance(s: Seq<(u64, usize)>) -> bool {
    forall|i: int, j: int| 0 <= i <= j < s.len() ==> s[i].0 <= s[j].0
}

pub proof fn lemma_insert_sorted_is_insert(s: Seq<(u64, usize)>, x: (u64, usize))
    ensures
        0 <= insert_pos(s, x) <= s.len(),
        insert_sorted(s, x) == s.insert(insert_pos(s, x), x),
        forall|j: int| insert_pos(s, x) <= j < s.len() ==> s[j].0 > x.0,
        insert_pos(s, x) > 0 ==> s[insert_pos(s, x) - 1].0 <= x.0,
    decreases s.len(),
{
    if s.len() == 0 {
        assert(seq![x] =~= s.insert(0, x));
    } else if s.last().0 <= x.0 {
        assert(s.push(x) =~= s.insert(s.len() as int, x));
    } else {
        let d = s.drop_last();
        lemma_insert_sorted_is_insert(d, x);
        let p = insert_pos(d, x);
        assert(d.insert(p, x).push(s.last()) =~= s.insert(p, x));
        assert forall|j: int| p <= j < s.len() implies s[j].0 > x.0 by {
            if j < d.len() {
                assert(s[j] == d[j]);
            }
        }
    }
}

/// The position that a scan from the back finds is the one `insert_sorted` uses.
pub proof fn lemma_insert_at_scan(s: Seq<(u64, usize)>, x: (u64, usize), p: int)
    requires
        0 <= p <= s.len(),
        forall|j: int| p <= j < s.len() ==> s[j].0 > x.0,
        p > 0 ==> s[p - 1].0 <= x.0,
    ensures
        insert_sorted(s, x) == s.insert(p, x),
    decreases s.len(),
{
    if s.len() == 0 {
        assert(seq![x] =~= s.insert(0, x));
    } else if s.last().0 <= x.0 {
        assert(s.push(x) =~= s.insert(s.len() as int, x));
    } else {
        let d = s.drop_last();
        lemma_insert_at_scan(d, x, p);
        assert(d.insert(p, x).push(s.last()) =~= s.insert(p, x));
    }
}

pub proof fn lemma_insert_sorted_keeps_order(s: Seq<(u64, usize)>, x: (u64, usize))
    requires
        sorted_by_distance(s),
    ensures
        sorted_by_distance(insert_sorted(s, x)),
{
    lemma_insert_sorted_is_insert(s, x);
    let p = insert_pos(s, x);
    let r = s.insert(p, x);
    assert forall|i: int, j: int| 0 <= i <= j < r.len() implies r[i].0 <= r[j].0 by {
        if i < p && j > p {
            assert(r[i] == s[i]);
            assert(r[j] == s[j - 1]);
        } else if i == p && j > p {
            assert(r[j] == s[j - 1]);
        } else if i < p && j == p {
            assert(s[i].0 <= s[p - 1].0);
        }
    }
}

pub proof fn lemma_sort_by_distance_facts(s: Seq<(u64, usize)>)
    ensures
        sorted_by_distance(sort_by_distance(s)),
        sort_by_distance(s).len() == s.len(),
        forall|k: int|
            0 <= k < s.len() ==> exists|j: int|
                0 <= j < s.len() && #[trigger] sort_by_distance(s)[k] == s[j],
    decreases s.len(),
{
    if s.len() > 0 {
        let d = s.drop_last();
        lemma_sort_by_distance_facts(d);
        let sd = sort_by_distance(d);
        lemma_insert_sorted_keeps_order(sd, s.last());
        lemma_insert_sorted_is_insert(sd, s.last());
        let p = insert_pos(sd, s.last());
        let r = sort_by_distance(s);
        assert(r == sd.insert(p, s.last()));
        assert forall|k: int| 0 <= k < s.len() implies exists|j: int|
            0 <= j < s.len() && #[trigger] r[k] == s[j] by {
            if k < p {
                assert(r[k] == sd[k]);
                let j = choose|j: int| 0 <= j < d.len() && sd[k] == d[j];
                assert(r[k] == s[j]);
            } else if k == p {
                assert(r[k] == s[s.len() - 1]);
            } else {
                assert(r[k] == sd[k - 1]);
                let j = choose|j: int| 0 <= j < d.len() && #[trigger] sd[k - 1] == d[j];
                assert(r[k] == s[j]);
            }
        }
    }
}

/// Sorts candidates by distance, keeping arrival order among equal distances.
pub fn sort_candidates(cands: Vec<(u64, usize)>) -> (r: Vec<(u64, usize)>)
    ensures
        r@ == sort_by_distance(cands@),
{
    let mut out: Vec<(u64, usize)> = Vec::new();
    let mut i: usize = 0;
    while i < cands.len()
        invariant
            i <= cands@.len(),
            out@ == sort_by_distance(cands@.subrange(0, i as int)),
        decreases cands@.len() - i,
    {
        let x = cands[i];
        let mut p: usize = out.len();
        while p > 0 && out[p - 1].0 > x.0
            invariant
                p <= out@.len(),
                forall|j: int| p <= j < out@.len() ==> out@[j].0 > x.0,
            decreases p,
        {
            p = p - 1;
        }
        proof {
            lemma_insert_at_scan(out@, x, p as int);
            assert(cands@.subrange(0, i as int + 1).drop_last() =~= cands@.subrange(0, i as int));
        }
        out.insert(p, x);
        i = i + 1;
    }
    proof {
        assert(cands@.subrange(0, i as int) =~= cands@);
    }
    out
}

/// The first `n` candidates, or all of them where there are fewer.
pub open spec fn take_prefix(s: Seq<(u64, usize)>, n: nat) -> Seq<(u64, usize)> {
    if s.len() <= n {
        s
    } else {
        s.subrange(0, n as int)
    }
}

} // verus!

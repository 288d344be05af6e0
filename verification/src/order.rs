use vstd::prelude::*;
use vstd::seq_lib::group_to_multiset_ensures;

use crate::reservoir::Item;

verus! {

broadcast use group_to_multiset_ensures;

/// The arrival sequence numbers of a batch, in batch order.
pub open spec fn seqs_of(s: Seq<Item>) -> Seq<u64> {
    s.map_values(|it: Item| it.seq)
}

/// Sorted by arrival sequence number, allowing ties.
pub open spec fn sorted_by_seq(s: Seq<Item>) -> bool {
    forall|p: int, q: int| #![trigger s[p], s[q]] 0 <= p < q < s.len() ==> s[p].seq <= s[q].seq
}

/// No two items of the batch share an arrival sequence number.
pub open spec fn distinct_seqs(s: Seq<Item>) -> bool {
    forall|p: int, q: int| #![trigger s[p], s[q]] 0 <= p < q < s.len() ==> s[p].seq != s[q].seq
}

/// Strictly increasing arrival sequence numbers.
pub open spec fn strict_by_seq(s: Seq<Item>) -> bool {
    forall|p: int, q: int| #![trigger s[p], s[q]] 0 <= p < q < s.len() ==> s[p].seq < s[q].seq
}

/// Strictly increasing sequence of numbers.
pub open spec fn strictly_increasing(s: Seq<u64>) -> bool {
    forall|p: int, q: int| #![trigger s[p], s[q]] 0 <= p < q < s.len() ==> s[p] < s[q]
}

/// A batch sorted by sequence number whose sequence numbers are distinct is
/// strictly ordered.
pub proof fn lemma_sorted_distinct_strict(s: Seq<Item>)
    requires
        sorted_by_seq(s),
        distinct_seqs(s),
    ensures
        strict_by_seq(s),
{
}

/// Where `u` arises from `s` by moving the element at `i` to position
/// `j <= i`, every element of `u` is an element of `s` at a distinct
/// position, so distinct sequence numbers stay distinct.
proof fn lemma_distinct_reinsert(s: Seq<Item>, i: int, j: int)
    requires
        0 <= i < s.len(),
        0 <= j <= i,
        distinct_seqs(s),
    ensures
        distinct_seqs(s.remove(i).insert(j, s[i])),
{
    let t = s.remove(i);
    let u = t.insert(j, s[i]);
    assert(u.len() == s.len());
    assert forall|p: int, q: int| 0 <= p < q < u.len() implies u[p].seq != u[q].seq by {
        let a = reinsert_origin(p, i, j);
        let b = reinsert_origin(q, i, j);
        assert(u[p] == s[a]);
        assert(u[q] == s[b]);
        assert(a != b);
        if a < b {
            assert(s[a].seq != s[b].seq);
        } else {
            assert(s[b].seq != s[a].seq);
        }
    }
}

/// The index in the original sequence from which position `k` of
/// `s.remove(i).insert(j, s[i])` is taken.
spec fn reinsert_origin(k: int, i: int, j: int) -> int {
    if k < j {
        k
    } else if k == j {
        i
    } else if k <= i {
        k - 1
    } else {
        k
    }
}

/// Two batches that are strictly ordered by sequence number and hold the
/// same items are the same batch: emission order is determined by content.
pub proof fn lemma_sorted_unique(a: Seq<Item>, b: Seq<Item>)
    requires
        strict_by_seq(a),
        strict_by_seq(b),
        a.to_multiset() == b.to_multiset(),
    ensures
        a == b,
    decreases a.len(),
{
    if a.len() == 0 {
        assert(b.to_multiset().len() == 0);
        assert(a =~= b);
    } else {
        assert(a.contains(a[0]));
        assert(b.to_multiset().count(a[0]) > 0);
        assert(b.contains(a[0]));
        let k = choose|k: int| 0 <= k < b.len() && b[k] == a[0];
        assert(b.contains(b[0]));
        assert(a.to_multiset().count(b[0]) > 0);
        assert(a.contains(b[0]));
        let m = choose|m: int| 0 <= m < a.len() && a[m] == b[0];
        if k > 0 {
            assert(b[0].seq < b[k].seq);
            if m > 0 {
                assert(a[0].seq < a[m].seq);
            }
            assert(false);
        }
        assert(b[0] == a[0]);
        let at = a.drop_first();
        let bt = b.drop_first();
        assert(at =~= a.remove(0));
        assert(bt =~= b.remove(0));
        assert(at.to_multiset() == a.to_multiset().remove(a[0]));
        assert(bt.to_multiset() == b.to_multiset().remove(b[0]));
        assert(strict_by_seq(at)) by {
            assert forall|p: int, q: int| 0 <= p < q < at.len() implies at[p].seq
                < at[q].seq by {
                assert(at[p] == a[p + 1]);
                assert(at[q] == a[q + 1]);
            }
        }
        assert(strict_by_seq(bt)) by {
            assert forall|p: int, q: int| 0 <= p < q < bt.len() implies bt[p].seq
                < bt[q].seq by {
                assert(bt[p] == b[p + 1]);
                assert(bt[q] == b[q + 1]);
            }
        }
        lemma_sorted_unique(at, bt);
        assert(a.len() == b.len());
        assert forall|n: int| 0 <= n < a.len() implies a[n] == b[n] by {
            if n > 0 {
                assert(a[n] == at[n - 1]);
                assert(b[n] == bt[n - 1]);
            }
        }
        assert(a =~= b);
    }
}

/// Sort a batch in place by arrival sequence number (insertion sort). The
/// result holds the same items; distinct sequence numbers stay distinct, so
/// a batch of distinct items comes out strictly ordered.
pub fn sort_items(v: &mut Vec<Item>)
    ensures
        final(v)@.len() == old(v)@.len(),
        final(v)@.to_multiset() == old(v)@.to_multiset(),
        sorted_by_seq(final(v)@),
        distinct_seqs(old(v)@) ==> distinct_seqs(final(v)@),
{
    if v.len() <= 1 {
        return ;
    }
    let mut i: usize = 1;
    while i < v.len()
        invariant
            1 <= i <= v@.len(),
            v@.len() == old(v)@.len(),
            v@.to_multiset() == old(v)@.to_multiset(),
            sorted_by_seq(v@.subrange(0, i as int)),
            distinct_seqs(old(v)@) ==> distinct_seqs(v@),
        decreases v@.len() - i,
    {
        let ghost before = v@;
        let x = v.remove(i);
        let ghost t = v@;
        proof {
            assert(before.contains(before[i as int]));
            assert(t.to_multiset() == before.to_multiset().remove(x));
        }
        let mut j: usize = i;
        while j > 0 && v[j - 1].seq > x.seq
            invariant
                j <= i,
                i < before.len(),
                v@ == t,
                t == before.remove(i as int),
                forall|k: int| j <= k < i ==> t[k].seq > x.seq,
            decreases j,
        {
            j = j - 1;
        }
        v.insert(j, x);
        proof {
            assert(v@ == t.insert(j as int, x));
            assert(v@.to_multiset() == t.to_multiset().insert(x));
            assert(v@.to_multiset() =~= before.to_multiset());
            if distinct_seqs(old(v)@) {
                lemma_distinct_reinsert(before, i as int, j as int);
            }
            assert(sorted_by_seq(v@.subrange(0, i as int + 1))) by {
                let u = v@.subrange(0, i as int + 1);
                assert forall|p: int, q: int| 0 <= p < q < u.len() implies u[p].seq
                    <= u[q].seq by {
                    assert(u[p] == v@[p]);
                    assert(u[q] == v@[q]);
                    if p < j {
                        assert(v@[p] == before[p]);
                    }
                    if q < j {
                        assert(v@[q] == before[q]);
                    }
                    if j < p {
                        assert(v@[p] == before[p - 1]);
                    }
                    if j < q {
                        assert(v@[q] == before[q - 1]);
                    }
                    if j > 0 {
                        assert(before[j - 1].seq <= x.seq);
                    }
                }
            }
        }
        i = i + 1;
    }
    proof {
        assert(v@.subrange(0, i as int) =~= v@);
    }
}

} // verus!

use vstd::prelude::*;

use crate::order::{lemma_sorted_unique, strict_by_seq, strictly_increasing};
use crate::reservoir::{Item, Reservoir};
use crate::sampler::{cap_prefix, first_room, occ_prefix, total_cap, total_occ, Sampler};

verus! {

/// At any time a reservoir holds exactly `min(capacity, offered)` items:
/// never more than its capacity, and never fewer than the number offered
/// this bucket allows.
pub proof fn lemma_reservoir_occupancy(r: Reservoir)
    requires
        r.wf(),
    ensures
        r.stored().len() == r.occupied(),
        r.occupied() <= r.capacity(),
        r.offered() < r.capacity() ==> r.occupied() == r.offered(),
        r.offered() >= r.capacity() ==> r.occupied() == r.capacity(),
{
}

/// The counters balance: every received event is sampled, dropped, or still
/// in flight, and at most one event is in flight between pipeline steps.
pub proof fn lemma_stats_accounting(s: Sampler)
    requires
        s.wf(),
    ensures
        s.stats.received == s.stats.sampled + s.stats.dropped + s.in_flight(),
        0 <= s.in_flight() <= 1,
{
}

/// Emission order: the engine hands items out for writing in strictly
/// increasing arrival-sequence order, within and across buckets.
pub proof fn lemma_emission_order(s: Sampler)
    requires
        s.wf(),
    ensures
        strictly_increasing(s.emitted_view()),
{
}

/// A final emission is determined by its contract: any two batches that are
/// strictly ordered by arrival sequence, open with the prior pending queue,
/// and close with the stored items in some order, are the same batch.
/// `teardown` therefore emits exactly what a `flush` of the same state
/// emits.
pub proof fn lemma_teardown_is_flush(a: Seq<Item>, b: Seq<Item>, pending: Seq<Item>, stored: Seq<
    Item,
>)
    requires
        strict_by_seq(a),
        strict_by_seq(b),
        a.len() == pending.len() + stored.len(),
        b.len() == pending.len() + stored.len(),
        a.subrange(0, pending.len() as int) == pending,
        b.subrange(0, pending.len() as int) == pending,
        a.skip(pending.len() as int).to_multiset() == stored.to_multiset(),
        b.skip(pending.len() as int).to_multiset() == stored.to_multiset(),
    ensures
        a == b,
{
    let p = pending.len() as int;
    let at = a.skip(p);
    let bt = b.skip(p);
    assert(strict_by_seq(at)) by {
        assert forall|i: int, j: int|
            #![trigger at[i], at[j]]
            0 <= i < j < at.len() implies at[i].seq < at[j].seq by {
            assert(at[i] == a[i + p]);
            assert(at[j] == a[j + p]);
        }
    }
    assert(strict_by_seq(bt)) by {
        assert forall|i: int, j: int|
            #![trigger bt[i], bt[j]]
            0 <= i < j < bt.len() implies bt[i].seq < bt[j].seq by {
            assert(bt[i] == b[i + p]);
            assert(bt[j] == b[j + p]);
        }
    }
    lemma_sorted_unique(at, bt);
    assert forall|k: int| 0 <= k < a.len() implies a[k] == b[k] by {
        if k < p {
            assert(a[k] == a.subrange(0, p)[k]);
            assert(b[k] == b.subrange(0, p)[k]);
        } else {
            assert(a[k] == at[k - p]);
            assert(b[k] == bt[k - p]);
        }
    }
    assert(a =~= b);
}

/// The occupancy a cascade of total capacity `c` reaches after `n` offers,
/// starting from occupancy `o`: each offer fills one free slot while any
/// remains, and leaves the total unchanged once all are full.
pub open spec fn filled_after(o: int, c: int, n: nat) -> int
    decreases n,
{
    if n == 0 {
        o
    } else {
        let p = filled_after(o, c, (n - 1) as nat);
        if p < c {
            p + 1
        } else {
            p
        }
    }
}

/// After `n` offers an initially empty cascade of total capacity `c` holds
/// exactly `min(n, c)` items; a flush then emits exactly that many.
pub proof fn lemma_filled_after_min(o: int, c: int, n: nat)
    requires
        0 <= o <= c,
    ensures
        filled_after(o, c, n) == if o + n <= c {
            o + n
        } else {
            c
        },
    decreases n,
{
    if n > 0 {
        lemma_filled_after_min(o, c, (n - 1) as nat);
    }
}

proof fn lemma_occ_prefix_bump(rs: Seq<Reservoir>, rs2: Seq<Reservoir>, f: int, n: int)
    requires
        rs.len() == rs2.len(),
        0 <= n <= rs.len(),
        forall|k: int| 0 <= k < rs.len() && k != f ==> rs2[k].occupied() == rs[k].occupied(),
        0 <= f < rs.len() ==> rs2[f].occupied() == rs[f].occupied() + 1,
    ensures
        occ_prefix(rs2, n) == occ_prefix(rs, n) + (if 0 <= f < n {
            1int
        } else {
            0int
        }),
    decreases n,
{
    if n > 0 {
        lemma_occ_prefix_bump(rs, rs2, f, n - 1);
    }
}

proof fn lemma_occ_prefix_same(rs: Seq<Reservoir>, rs2: Seq<Reservoir>, n: int)
    requires
        rs.len() == rs2.len(),
        0 <= n <= rs.len(),
        forall|k: int| 0 <= k < rs.len() ==> rs2[k].occupied() == rs[k].occupied(),
    ensures
        occ_prefix(rs2, n) == occ_prefix(rs, n),
    decreases n,
{
    if n > 0 {
        lemma_occ_prefix_same(rs, rs2, n - 1);
    }
}

proof fn lemma_occ_prefix_full(rs: Seq<Reservoir>, n: int)
    requires
        0 <= n <= rs.len(),
        forall|k: int| 0 <= k < rs.len() ==> rs[k].occupied() == rs[k].capacity(),
    ensures
        occ_prefix(rs, n) == cap_prefix(rs, n),
    decreases n,
{
    if n > 0 {
        lemma_occ_prefix_full(rs, n - 1);
    }
}

proof fn lemma_occ_prefix_below(rs: Seq<Reservoir>, f: int, n: int)
    requires
        0 <= f < n <= rs.len(),
        rs[f].occupied() < rs[f].capacity(),
    ensures
        occ_prefix(rs, n) < cap_prefix(rs, n),
    decreases n,
{
    assert forall|k: int| 0 <= k < rs.len() implies rs[k].occupied() <= rs[k].capacity() by {}
    if n - 1 > f {
        lemma_occ_prefix_below(rs, f, n - 1);
    } else {
        lemma_occ_prefix_le(rs, n - 1);
    }
}

proof fn lemma_occ_prefix_le(rs: Seq<Reservoir>, n: int)
    requires
        0 <= n <= rs.len(),
    ensures
        occ_prefix(rs, n) <= cap_prefix(rs, n),
    decreases n,
{
    if n > 0 {
        lemma_occ_prefix_le(rs, n - 1);
    }
}

/// Past the first free slot there is none: when `first_room` reports the
/// end, every reservoir at or after `i` is unmatched or full.
proof fn lemma_first_room_end(rs: Seq<Reservoir>, m: Seq<bool>, i: int)
    requires
        0 <= i <= rs.len(),
        m.len() == rs.len(),
        first_room(rs, m, i) == rs.len(),
    ensures
        forall|k: int| i <= k < rs.len() ==> !(m[k] && rs[k].occupied() < rs[k].capacity()),
    decreases rs.len() - i,
{
    if i < rs.len() {
        lemma_first_room_end(rs, m, i + 1);
    }
}

/// One offer through a cascade in which every budget matches raises the
/// total occupancy by exactly one while any reservoir has room, and leaves
/// it unchanged once all are full — the step that `filled_after` iterates.
/// The hypotheses are what `sample_event` guarantees of one call.
pub proof fn lemma_cascade_step(rs: Seq<Reservoir>, rs2: Seq<Reservoir>, m: Seq<bool>)
    requires
        rs.len() == rs2.len(),
        m.len() == rs.len(),
        forall|i: int| 0 <= i < m.len() ==> m[i],
        forall|k: int|
            0 <= k < rs.len() && k != first_room(rs, m, 0) ==> rs2[k].occupied()
                == rs[k].occupied(),
        first_room(rs, m, 0) < rs.len() ==> rs2[first_room(rs, m, 0)].occupied() == rs[first_room(
            rs,
            m,
            0,
        )].occupied() + 1,
    ensures
        total_occ(rs2) == if total_occ(rs) < total_cap(rs) {
            total_occ(rs) + 1
        } else {
            total_occ(rs)
        },
{
    let f = first_room(rs, m, 0);
    let n = rs.len() as int;
    lemma_first_room_bounds(rs, m, 0);
    if f < n {
        assert(rs[f].occupied() < rs[f].capacity());
        lemma_occ_prefix_below(rs, f, n);
        lemma_occ_prefix_bump(rs, rs2, f, n);
    } else {
        lemma_first_room_end(rs, m, 0);
        assert forall|k: int| 0 <= k < rs.len() implies rs[k].occupied() == rs[k].capacity() by {
            assert(m[k]);
            assert(rs[k].occupied() <= rs[k].capacity());
        }
        lemma_occ_prefix_full(rs, n);
        lemma_occ_prefix_same(rs, rs2, n);
    }
}

/// `first_room` lies between its start and the length, and where it lands
/// inside the cascade it names a matched reservoir with room.
proof fn lemma_first_room_bounds(rs: Seq<Reservoir>, m: Seq<bool>, i: int)
    requires
        0 <= i <= rs.len(),
        m.len() == rs.len(),
    ensures
        i <= first_room(rs, m, i) <= rs.len(),
        first_room(rs, m, i) < rs.len() ==> m[first_room(rs, m, i)] && rs[first_room(
            rs,
            m,
            i,
        )].occupied() < rs[first_room(rs, m, i)].capacity(),
    decreases rs.len() - i,
{
    if i < rs.len() && !(m[i] && rs[i].occupied() < rs[i].capacity()) {
        lemma_first_room_bounds(rs, m, i + 1);
    }
}

} // verus!

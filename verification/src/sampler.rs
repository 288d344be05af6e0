use vstd::prelude::*;

use crate::level::{Level, LevelFilter};
use crate::order::{seqs_of, strict_by_seq, strictly_increasing};
use crate::reservoir::{Item, Reservoir};
use crate::stats::Stats;

verus! {

/// All reservoirs are well-formed and have room for at least one item.
pub open spec fn res_wf(rs: Seq<Reservoir>) -> bool {
    forall|a: int|
        0 <= a < rs.len() ==> (#[trigger] rs[a]).wf() && rs[a].capacity() >= 1
}

/// No two stored items, in any two reservoirs, share an arrival sequence
/// number.
pub open spec fn res_distinct(rs: Seq<Reservoir>) -> bool {
    forall|a: int, b: int, c: int, d: int|
        #![trigger rs[a].stored()[b], rs[c].stored()[d]]
        0 <= a < rs.len() && 0 <= b < rs[a].stored().len() && 0 <= c < rs.len() && 0 <= d
            < rs[c].stored().len() && (a != c || b != d) ==> rs[a].stored()[b].seq
            != rs[c].stored()[d].seq
}

/// Every stored item's arrival sequence number lies in `(lo, hi]`.
pub open spec fn res_window(rs: Seq<Reservoir>, lo: int, hi: int) -> bool {
    forall|a: int, b: int|
        #![trigger rs[a].stored()[b]]
        0 <= a < rs.len() && 0 <= b < rs[a].stored().len() ==> lo < rs[a].stored()[b].seq <= hi
}

/// Every item's arrival sequence number lies in `(lo, hi]`.
pub open spec fn in_window(items: Seq<Item>, lo: int, hi: int) -> bool {
    forall|k: int| 0 <= k < items.len() ==> lo < (#[trigger] items[k]).seq <= hi
}

/// Total number of items stored across the first `n` reservoirs.
pub open spec fn occ_prefix(rs: Seq<Reservoir>, n: int) -> int
    decreases n,
{
    if n <= 0 {
        0
    } else {
        occ_prefix(rs, n - 1) + rs[n - 1].occupied()
    }
}

/// Total number of items stored across all reservoirs.
pub open spec fn total_occ(rs: Seq<Reservoir>) -> int {
    occ_prefix(rs, rs.len() as int)
}

/// Summed capacity of the first `n` reservoirs.
pub open spec fn cap_prefix(rs: Seq<Reservoir>, n: int) -> int
    decreases n,
{
    if n <= 0 {
        0
    } else {
        cap_prefix(rs, n - 1) + rs[n - 1].capacity()
    }
}

/// Summed capacity of all reservoirs.
pub open spec fn total_cap(rs: Seq<Reservoir>) -> int {
    cap_prefix(rs, rs.len() as int)
}

/// The stored items of the first `n` reservoirs, reservoir by reservoir in
/// slot order.
pub open spec fn stored_prefix(rs: Seq<Reservoir>, n: int) -> Seq<Item>
    decreases n,
{
    if n <= 0 {
        Seq::<Item>::empty()
    } else {
        stored_prefix(rs, n - 1) + rs[n - 1].stored()
    }
}

/// The stored items of all reservoirs.
pub open spec fn stored_all(rs: Seq<Reservoir>) -> Seq<Item> {
    stored_prefix(rs, rs.len() as int)
}

/// The index of the first reservoir at or after `i` that is marked in
/// `matched` and has a free slot; `rs.len()` when there is none. A cascaded
/// offer comes to rest exactly there.
pub open spec fn first_room(rs: Seq<Reservoir>, matched: Seq<bool>, i: int) -> int
    decreases rs.len() - i,
{
    if i < 0 || i >= rs.len() {
        rs.len() as int
    } else if matched[i] && rs[i].occupied() < rs[i].capacity() {
        i
    } else {
        first_room(rs, matched, i + 1)
    }
}

/// The sampling engine: per-budget reservoirs over fixed wall-clock buckets,
/// a pending queue smearing the previous bucket's survivors over the current
/// bucket, and cumulative counters. Time enters as a monotonic reading in
/// nanoseconds supplied by the caller.
pub struct Sampler {
    /// One filter per budget, in cascade order.
    pub filters: Vec<LevelFilter>,
    /// One reservoir per budget, in cascade order.
    pub reservoirs: Vec<Reservoir>,
    /// Bucket length in nanoseconds; always positive.
    pub bucket_duration_ns: u64,
    /// Monotonic reading at which the current bucket began.
    pub bucket_start_ns: u64,
    /// Monotonic reading of the last smear release.
    pub last_release_ns: u64,
    /// Last assigned arrival sequence number; 0 before the first event.
    pub seq: u64,
    /// Items drained from the previous bucket, awaiting release; front first.
    pub pending: Vec<Item>,
    /// Cumulative counters.
    pub stats: Stats,
    /// The arrival sequence numbers of every item handed out for emission,
    /// in emission order.
    pub emitted: Ghost<Seq<u64>>,
}

impl Sampler {
    pub open spec fn budgets(self) -> int {
        self.reservoirs@.len() as int
    }

    /// The queue of drained items not yet released to the sink.
    pub open spec fn pending_view(self) -> Seq<Item> {
        self.pending@
    }

    /// Sequence numbers emitted so far, in emission order.
    pub open spec fn emitted_view(self) -> Seq<u64> {
        self.emitted@
    }

    /// The last emitted sequence number; 0 before the first emission. Every
    /// item still inside the engine is newer than this.
    pub open spec fn watermark(self) -> int {
        if self.emitted@.len() == 0 {
            0
        } else {
            self.emitted@.last() as int
        }
    }

    /// The newest sequence number at or below which the pending queue ends;
    /// every reservoir item is newer than this.
    pub open spec fn pending_hi(self) -> int {
        if self.pending@.len() == 0 {
            self.watermark()
        } else {
            self.pending@.last().seq as int
        }
    }

    /// Events accounted as received whose sampling outcome is not yet
    /// recorded; 0 or 1 between pipeline steps.
    pub open spec fn in_flight(self) -> int {
        self.stats.received - self.stats.sampled - self.stats.dropped
    }

    /// Which budgets admit an event of severity `level`, in cascade order.
    pub open spec fn admit_mask(self, level: Level) -> Seq<bool> {
        self.filters@.map_values(|f: LevelFilter| f.admits(level))
    }

    pub open spec fn wf(self) -> bool {
        &&& self.filters@.len() == self.reservoirs@.len()
        &&& res_wf(self.reservoirs@)
        &&& self.bucket_duration_ns >= 1
        &&& self.bucket_start_ns + self.bucket_duration_ns <= u64::MAX
        &&& strictly_increasing(self.emitted@)
        &&& forall|k: int|
            0 <= k < self.emitted@.len() ==> 0 < #[trigger] self.emitted@[k] <= self.seq
        &&& strict_by_seq(self.pending@)
        &&& in_window(self.pending@, self.watermark(), self.seq as int)
        &&& res_window(self.reservoirs@, self.pending_hi(), self.seq as int)
        &&& res_distinct(self.reservoirs@)
        &&& forall|i: int|
            0 <= i < self.reservoirs@.len() ==> (#[trigger] self.reservoirs@[i]).offered()
                <= self.seq
        &&& self.stats.sampled + self.stats.dropped <= self.stats.received
        &&& self.stats.received - self.stats.sampled - self.stats.dropped <= 1
        &&& self.seq <= self.stats.sampled + self.stats.dropped
    }

    /// Cumulative counters: events received, sampled and dropped.
    pub fn stats(&self) -> (r: Stats)
        ensures
            r == self.stats,
    {
        self.stats
    }

    /// Record that an event matched some filter and entered the pipeline.
    pub fn account_received(&mut self)
        requires
            old(self).wf(),
            old(self).in_flight() == 0,
            old(self).stats.received < u64::MAX,
        ensures
            final(self).wf(),
            final(self).in_flight() == 1,
            final(self).stats.received == old(self).stats.received + 1,
            final(self).stats.sampled == old(self).stats.sampled,
            final(self).stats.dropped == old(self).stats.dropped,
            final(self).filters == old(self).filters,
            final(self).reservoirs == old(self).reservoirs,
            final(self).bucket_duration_ns == old(self).bucket_duration_ns,
            final(self).bucket_start_ns == old(self).bucket_start_ns,
            final(self).last_release_ns == old(self).last_release_ns,
            final(self).seq == old(self).seq,
            final(self).pending == old(self).pending,
            final(self).emitted@ == old(self).emitted@,
    {
        self.stats.received = self.stats.received + 1;
    }

    /// Record that an event that matched some filter could not be formatted
    /// and was discarded.
    pub fn account_format_failure(&mut self)
        requires
            old(self).wf(),
            old(self).in_flight() == 1,
        ensures
            final(self).wf(),
            final(self).in_flight() == 0,
            final(self).stats.received == old(self).stats.received,
            final(self).stats.sampled == old(self).stats.sampled,
            final(self).stats.dropped == old(self).stats.dropped + 1,
            final(self).filters == old(self).filters,
            final(self).reservoirs == old(self).reservoirs,
            final(self).bucket_duration_ns == old(self).bucket_duration_ns,
            final(self).bucket_start_ns == old(self).bucket_start_ns,
            final(self).last_release_ns == old(self).last_release_ns,
            final(self).seq == old(self).seq,
            final(self).pending == old(self).pending,
            final(self).emitted@ == old(self).emitted@,
    {
        self.stats.dropped = self.stats.dropped + 1;
    }

    /// Evaluate every budget's filter against an event's severity, producing
    /// the match mask consumed by `sample_event`.
    pub fn match_filters(&self, level: Level) -> (mask: Vec<bool>)
        ensures
            mask@ == self.admit_mask(level),
    {
        let mut mask: Vec<bool> = Vec::new();
        let n = self.filters.len();
        let mut i: usize = 0;
        while i < n
            invariant
                i <= n,
                n == self.filters@.len(),
                mask@.len() == i,
                forall|k: int| 0 <= k < i ==> mask@[k] == self.filters@[k].admits(level),
            decreases n - i,
        {
            mask.push(self.filters[i].enabled(level));
            i = i + 1;
        }
        proof {
            assert(mask@ =~= self.admit_mask(level));
        }
        mask
    }

    /// Whether any budget's filter admits an event of severity `level`; an
    /// event for which this is false is discarded before formatting.
    pub fn enabled(&self, level: Level) -> (r: bool)
        ensures
            r == exists|i: int|
                0 <= i < self.filters@.len() && (#[trigger] self.filters@[i]).admits(level),
    {
        let n = self.filters.len();
        let mut i: usize = 0;
        while i < n
            invariant
                i <= n,
                n == self.filters@.len(),
                forall|k: int| 0 <= k < i ==> !(#[trigger] self.filters@[k]).admits(level),
            decreases n - i,
        {
            if self.filters[i].enabled(level) {
                return true;
            }
            i = i + 1;
        }
        false
    }
}

proof fn lemma_stored_prefix_len(rs: Seq<Reservoir>, n: int)
    requires
        0 <= n <= rs.len(),
    ensures
        stored_prefix(rs, n).len() == occ_prefix(rs, n),
    decreases n,
{
    if n > 0 {
        lemma_stored_prefix_len(rs, n - 1);
    }
}

/// The reservoir from which position `k` of `stored_prefix(rs, n)` comes.
pub open spec fn elem_res(rs: Seq<Reservoir>, n: int, k: int) -> int
    decreases n,
{
    if n <= 0 {
        0
    } else if k < stored_prefix(rs, n - 1).len() {
        elem_res(rs, n - 1, k)
    } else {
        n - 1
    }
}

/// The slot inside that reservoir from which position `k` comes.
pub open spec fn elem_slot(rs: Seq<Reservoir>, n: int, k: int) -> int
    decreases n,
{
    if n <= 0 {
        0
    } else if k < stored_prefix(rs, n - 1).len() {
        elem_slot(rs, n - 1, k)
    } else {
        k - stored_prefix(rs, n - 1).len()
    }
}

/// Position `k` of `stored_prefix(rs, n)` is the stored item of the
/// reservoir and slot that `elem_res` and `elem_slot` name for it.
pub open spec fn elem_ok(rs: Seq<Reservoir>, n: int, k: int) -> bool {
    &&& 0 <= elem_res(rs, n, k) < n
    &&& 0 <= elem_slot(rs, n, k) < rs[elem_res(rs, n, k)].stored().len()
    &&& stored_prefix(rs, n)[k] == rs[elem_res(rs, n, k)].stored()[elem_slot(rs, n, k)]
}

proof fn lemma_stored_prefix_elems(rs: Seq<Reservoir>, n: int)
    requires
        0 <= n <= rs.len(),
    ensures
        forall|k: int| 0 <= k < stored_prefix(rs, n).len() ==> #[trigger] elem_ok(rs, n, k),
    decreases n,
{
    if n > 0 {
        lemma_stored_prefix_elems(rs, n - 1);
        assert forall|k: int| 0 <= k < stored_prefix(rs, n).len() implies #[trigger] elem_ok(
            rs,
            n,
            k,
        ) by {
            let h = stored_prefix(rs, n - 1);
            if k < h.len() {
                assert(elem_ok(rs, n - 1, k));
                assert(stored_prefix(rs, n)[k] == h[k]);
            } else {
                assert(stored_prefix(rs, n)[k] == rs[n - 1].stored()[k - h.len()]);
            }
        }
    }
}

/// Distinctness of all stored sequence numbers carries over to the
/// concatenated batch.
proof fn lemma_stored_prefix_distinct(rs: Seq<Reservoir>, n: int)
    requires
        0 <= n <= rs.len(),
        res_distinct(rs),
    ensures
        crate::order::distinct_seqs(stored_prefix(rs, n)),
    decreases n,
{
    if n > 0 {
        lemma_stored_prefix_distinct(rs, n - 1);
        lemma_stored_prefix_elems(rs, n - 1);
        let s = stored_prefix(rs, n);
        let h = stored_prefix(rs, n - 1);
        let t = rs[n - 1].stored();
        assert forall|p: int, q: int| 0 <= p < q < s.len() implies s[p].seq != s[q].seq by {
            if q < h.len() {
                assert(s[p] == h[p] && s[q] == h[q]);
            } else if p >= h.len() {
                assert(s[p] == t[p - h.len()] && s[q] == t[q - h.len()]);
            } else {
                assert(s[p] == h[p] && s[q] == t[q - h.len()]);
                assert(elem_ok(rs, n - 1, p));
                let a = elem_res(rs, n - 1, p);
                let b = elem_slot(rs, n - 1, p);
                assert(h[p] == rs[a].stored()[b]);
                assert(rs[a].stored()[b].seq != rs[n - 1].stored()[q - h.len()].seq);
            }
        }
    }
}

/// A window bound on every reservoir carries over to the concatenated batch.
proof fn lemma_stored_prefix_window(rs: Seq<Reservoir>, n: int, lo: int, hi: int)
    requires
        0 <= n <= rs.len(),
        res_window(rs, lo, hi),
    ensures
        in_window(stored_prefix(rs, n), lo, hi),
{
    lemma_stored_prefix_elems(rs, n);
    let s = stored_prefix(rs, n);
    assert forall|k: int| 0 <= k < s.len() implies lo < (#[trigger] s[k]).seq <= hi by {
        assert(elem_ok(rs, n, k));
        let a = elem_res(rs, n, k);
        let b = elem_slot(rs, n, k);
        assert(s[k] == rs[a].stored()[b]);
        assert(lo < rs[a].stored()[b].seq <= hi);
    }
}

/// A window bound survives any reordering of a batch.
proof fn lemma_window_multiset(s1: Seq<Item>, s2: Seq<Item>, lo: int, hi: int)
    requires
        s1.to_multiset() == s2.to_multiset(),
        in_window(s1, lo, hi),
    ensures
        in_window(s2, lo, hi),
{
    broadcast use vstd::seq_lib::group_to_multiset_ensures;

    assert forall|k: int| 0 <= k < s2.len() implies lo < (#[trigger] s2[k]).seq <= hi by {
        assert(s2.contains(s2[k]));
        assert(s2.to_multiset().count(s2[k]) > 0);
        assert(s1.contains(s2[k]));
        let i = choose|i: int| 0 <= i < s1.len() && s1[i] == s2[k];
        assert(lo < s1[i].seq <= hi);
    }
}

proof fn lemma_occ_prefix_zero(rs: Seq<Reservoir>, n: int)
    requires
        0 <= n <= rs.len(),
        forall|i: int| 0 <= i < rs.len() ==> (#[trigger] rs[i]).occupied() == 0,
    ensures
        occ_prefix(rs, n) == 0,
    decreases n,
{
    if n > 0 {
        lemma_occ_prefix_zero(rs, n - 1);
    }
}

/// No stored item in any reservoir carries the sequence number `s`.
pub open spec fn fresh_for(rs: Seq<Reservoir>, s: u64) -> bool {
    forall|a: int, b: int|
        #![trigger rs[a].stored()[b]]
        0 <= a < rs.len() && 0 <= b < rs[a].stored().len() ==> rs[a].stored()[b].seq != s
}

/// Replacing a reservoir by one with the same stored items preserves
/// distinctness, the window bound and freshness.
proof fn lemma_res_update_same(
    rs: Seq<Reservoir>,
    i: int,
    r2: Reservoir,
    lo: int,
    hi: int,
    x: u64,
)
    requires
        0 <= i < rs.len(),
        res_distinct(rs),
        res_window(rs, lo, hi),
        fresh_for(rs, x),
        r2.stored() == rs[i].stored(),
    ensures
        res_distinct(rs.update(i, r2)),
        res_window(rs.update(i, r2), lo, hi),
        fresh_for(rs.update(i, r2), x),
{
    let rs2 = rs.update(i, r2);
    assert forall|a: int, b: int|
        0 <= a < rs2.len() && 0 <= b < rs2[a].stored().len() implies #[trigger] rs2[a].stored()[b]
        == rs[a].stored()[b] by {}
}

/// Appending a fresh, in-window item to one reservoir's stored items
/// preserves distinctness and the window bound.
proof fn lemma_res_update_push(
    rs: Seq<Reservoir>,
    i: int,
    r2: Reservoir,
    cur: Item,
    lo: int,
    hi: int,
)
    requires
        0 <= i < rs.len(),
        res_distinct(rs),
        res_window(rs, lo, hi),
        fresh_for(rs, cur.seq),
        lo < cur.seq <= hi,
        r2.stored() == rs[i].stored().push(cur),
    ensures
        res_distinct(rs.update(i, r2)),
        res_window(rs.update(i, r2), lo, hi),
{
    let rs2 = rs.update(i, r2);
    let w = rs[i].stored().len() as int;
    assert forall|a: int, b: int|
        0 <= a < rs2.len() && 0 <= b < rs2[a].stored().len() implies (#[trigger] rs2[a].stored()[b]
            == if a == i && b == w {
            cur
        } else {
            rs[a].stored()[b]
        }) by {}
    assert forall|a: int, b: int, c: int, d: int|
        #![trigger rs2[a].stored()[b], rs2[c].stored()[d]]
        0 <= a < rs2.len() && 0 <= b < rs2[a].stored().len() && 0 <= c < rs2.len() && 0 <= d
            < rs2[c].stored().len() && (a != c || b != d) implies rs2[a].stored()[b].seq
        != rs2[c].stored()[d].seq by {
        if a == i && b == w {
            assert(rs2[c].stored()[d] == rs[c].stored()[d]);
        } else if c == i && d == w {
            assert(rs2[a].stored()[b] == rs[a].stored()[b]);
        } else {
            assert(rs2[a].stored()[b] == rs[a].stored()[b]);
            assert(rs2[c].stored()[d] == rs[c].stored()[d]);
        }
    }
}

/// Swapping a fresh, in-window item into one slot preserves distinctness
/// and the window bound, and the displaced item is fresh for the result.
proof fn lemma_res_update_swap(
    rs: Seq<Reservoir>,
    i: int,
    r2: Reservoir,
    cur: Item,
    j: int,
    lo: int,
    hi: int,
)
    requires
        0 <= i < rs.len(),
        res_distinct(rs),
        res_window(rs, lo, hi),
        fresh_for(rs, cur.seq),
        lo < cur.seq <= hi,
        0 <= j < rs[i].stored().len(),
        r2.stored() == rs[i].stored().update(j, cur),
    ensures
        res_distinct(rs.update(i, r2)),
        res_window(rs.update(i, r2), lo, hi),
        fresh_for(rs.update(i, r2), rs[i].stored()[j].seq),
        lo < rs[i].stored()[j].seq <= hi,
{
    let rs2 = rs.update(i, r2);
    let out = rs[i].stored()[j];
    assert forall|a: int, b: int|
        0 <= a < rs2.len() && 0 <= b < rs2[a].stored().len() implies (#[trigger] rs2[a].stored()[b]
            == if a == i && b == j {
            cur
        } else {
            rs[a].stored()[b]
        }) by {}
    assert forall|a: int, b: int, c: int, d: int|
        #![trigger rs2[a].stored()[b], rs2[c].stored()[d]]
        0 <= a < rs2.len() && 0 <= b < rs2[a].stored().len() && 0 <= c < rs2.len() && 0 <= d
            < rs2[c].stored().len() && (a != c || b != d) implies rs2[a].stored()[b].seq
        != rs2[c].stored()[d].seq by {
        if a == i && b == j {
            assert(rs2[c].stored()[d] == rs[c].stored()[d]);
        } else if c == i && d == j {
            assert(rs2[a].stored()[b] == rs[a].stored()[b]);
        } else {
            assert(rs2[a].stored()[b] == rs[a].stored()[b]);
            assert(rs2[c].stored()[d] == rs[c].stored()[d]);
        }
    }
    assert forall|a: int, b: int|
        0 <= a < rs2.len() && 0 <= b < rs2[a].stored().len() implies (#[trigger] rs2[a].stored()[
            b]).seq != out.seq by {
        if a == i && b == j {
            assert(rs2[a].stored()[b] == cur);
        } else {
            assert(rs2[a].stored()[b] == rs[a].stored()[b]);
            assert(rs[a].stored()[b].seq != rs[i].stored()[j].seq);
        }
    }
}

/// `first_room` passes over a reservoir that is unmatched or full.
proof fn lemma_first_room_skip(rs: Seq<Reservoir>, m: Seq<bool>, i: int)
    requires
        0 <= i < rs.len(),
        !(m[i] && rs[i].occupied() < rs[i].capacity()),
    ensures
        first_room(rs, m, i) == first_room(rs, m, i + 1),
{
}

impl Sampler {
    /// Drain every reservoir and hand back the union of their contents,
    /// sorted by arrival sequence number. Reservoir offer counts reset to
    /// zero for the next bucket.
    pub fn drain_all(&mut self) -> (out: Vec<Item>)
        requires
            old(self).wf(),
        ensures
            final(self).wf(),
            out@.len() == total_occ(old(self).reservoirs@),
            out@.to_multiset() == stored_all(old(self).reservoirs@).to_multiset(),
            strict_by_seq(out@),
            in_window(out@, old(self).pending_hi(), old(self).seq as int),
            final(self).reservoirs@.len() == old(self).reservoirs@.len(),
            forall|i: int|
                0 <= i < old(self).budgets() ==> (#[trigger] final(self).reservoirs@[i]).capacity()
                    == old(self).reservoirs@[i].capacity() && final(self).reservoirs@[i].offered()
                    == 0 && final(self).reservoirs@[i].stored().len() == 0,
            total_occ(final(self).reservoirs@) == 0,
            final(self).filters == old(self).filters,
            final(self).bucket_duration_ns == old(self).bucket_duration_ns,
            final(self).bucket_start_ns == old(self).bucket_start_ns,
            final(self).last_release_ns == old(self).last_release_ns,
            final(self).seq == old(self).seq,
            final(self).pending == old(self).pending,
            final(self).stats == old(self).stats,
            final(self).emitted@ == old(self).emitted@,
    {
        let ghost rs0 = old(self).reservoirs@;
        let mut out: Vec<Item> = Vec::new();
        let n = self.reservoirs.len();
        let mut i: usize = 0;
        while i < n
            invariant
                i <= n,
                n == self.reservoirs@.len(),
                n == rs0.len(),
                forall|k: int| i <= k < n ==> self.reservoirs@[k] == rs0[k],
                forall|k: int|
                    0 <= k < i ==> (#[trigger] self.reservoirs@[k]).capacity() == rs0[k].capacity()
                        && self.reservoirs@[k].offered() == 0 && self.reservoirs@[k].wf()
                        && self.reservoirs@[k].stored().len() == 0,
                forall|k: int| 0 <= k < n ==> (#[trigger] rs0[k]).wf(),
                out@ == stored_prefix(rs0, i as int),
                self.filters == old(self).filters,
                self.bucket_duration_ns == old(self).bucket_duration_ns,
                self.bucket_start_ns == old(self).bucket_start_ns,
                self.last_release_ns == old(self).last_release_ns,
                self.seq == old(self).seq,
                self.pending == old(self).pending,
                self.stats == old(self).stats,
                self.emitted@ == old(self).emitted@,
            decreases n - i,
        {
            let ghost rs_before = self.reservoirs@;
            let mut r = self.reservoirs.remove(i);
            proof {
                assert(r == rs_before[i as int]);
                assert(rs_before[i as int] == rs0[i as int]);
                assert(rs0[i as int].wf());
            }
            let mut part = r.drain();
            out.append(&mut part);
            self.reservoirs.insert(i, r);
            proof {
                assert(self.reservoirs@ =~= rs_before.update(i as int, r));
                assert(out@ =~= stored_prefix(rs0, i as int + 1));
            }
            i = i + 1;
        }
        proof {
            assert(out@ == stored_prefix(rs0, n as int));
            lemma_stored_prefix_len(rs0, n as int);
            lemma_stored_prefix_distinct(rs0, n as int);
            lemma_stored_prefix_window(
                rs0,
                n as int,
                old(self).pending_hi(),
                old(self).seq as int,
            );
        }
        let ghost unsorted = out@;
        crate::order::sort_items(&mut out);
        proof {
            crate::order::lemma_sorted_distinct_strict(out@);
            lemma_window_multiset(
                unsorted,
                out@,
                old(self).pending_hi(),
                old(self).seq as int,
            );
            lemma_occ_prefix_zero(self.reservoirs@, n as int);
        }
        out
    }
}

impl Sampler {
    /// Assign the next arrival sequence number to a formatted event and
    /// cascade it through the matching reservoirs: the first matching
    /// reservoir with a free slot keeps an item; a full one either bounces
    /// the offer onward or swaps it with a stored item, which then cascades
    /// in its place. An item displaced past the last matching reservoir is
    /// dropped; its buffer comes back for reuse.
    pub fn sample_event(&mut self, bytes: Vec<u8>, matched: &Vec<bool>) -> (leftover: Option<
        Vec<u8>,
    >)
        requires
            old(self).wf(),
            old(self).in_flight() == 1,
            old(self).seq < usize::MAX as u64,
            matched@.len() == old(self).budgets(),
            bytes@.len() > 0,
        ensures
            final(self).wf(),
            final(self).in_flight() == 0,
            final(self).seq == old(self).seq + 1,
            final(self).stats.received == old(self).stats.received,
            ({
                let f = first_room(old(self).reservoirs@, matched@, 0);
                let n = old(self).budgets();
                &&& (leftover is None <==> f < n)
                &&& final(self).stats.sampled == old(self).stats.sampled + (if f < n {
                    1int
                } else {
                    0int
                })
                &&& final(self).stats.dropped == old(self).stats.dropped + (if f < n {
                    0int
                } else {
                    1int
                })
                &&& final(self).reservoirs@.len() == n
                &&& forall|k: int|
                    0 <= k < n && (!matched@[k] || k > f) ==> final(self).reservoirs@[k] == old(self).reservoirs@[k]
                &&& forall|k: int|
                    0 <= k < n && matched@[k] && k < f ==> (#[trigger] final(self).reservoirs@[k]).capacity() == old(self).reservoirs@[k].capacity() && final(self).reservoirs@[k].offered() == old(self).reservoirs@[k].offered() + 1 && final(self).reservoirs@[k].occupied() == old(self).reservoirs@[k].occupied()
                &&& (f < n ==> (#[trigger] final(self).reservoirs@[f]).capacity() == old(self).reservoirs@[f].capacity() && final(self).reservoirs@[f].offered() == old(self).reservoirs@[f].offered() + 1 && final(self).reservoirs@[f].occupied() == old(self).reservoirs@[f].occupied() + 1)
            }),
            final(self).pending == old(self).pending,
            final(self).emitted@ == old(self).emitted@,
            final(self).filters == old(self).filters,
            final(self).bucket_duration_ns == old(self).bucket_duration_ns,
            final(self).bucket_start_ns == old(self).bucket_start_ns,
            final(self).last_release_ns == old(self).last_release_ns,
    {
        let ghost rs0 = old(self).reservoirs@;
        let ghost m = matched@;
        let ghost lo = old(self).pending_hi();
        proof {
            assert(old(self).seq < u64::MAX);
        }
        self.seq = self.seq + 1;
        let ghost hi = self.seq as int;
        let current_seq = self.seq;
        let mut current = Item { seq: current_seq, bytes };
        proof {
            assert(lo <= old(self).seq);
            assert forall|a: int, b: int|
                0 <= a < rs0.len() && 0 <= b < rs0[a].stored().len() implies (
            #[trigger] rs0[a].stored()[b]).seq != current.seq by {
                assert(rs0[a].stored()[b].seq <= old(self).seq);
            }
            assert(fresh_for(rs0, current.seq));
        }
        let n = self.reservoirs.len();
        let mut i: usize = 0;
        while i < n
            invariant
                i <= n,
                n == self.reservoirs@.len(),
                n == rs0.len(),
                n == m.len(),
                m == matched@,
                old(self).wf(),
                old(self).in_flight() == 1,
                old(self).seq < usize::MAX as u64,
                rs0 == old(self).reservoirs@,
                forall|k: int|
                    0 <= k < n ==> (#[trigger] rs0[k]).offered() <= old(self).seq,
                forall|k: int|
                    0 <= k < n ==> (#[trigger] self.reservoirs@[k]).offered() <= self.seq,
                res_wf(rs0),
                res_distinct(rs0),
                res_wf(self.reservoirs@),
                res_distinct(self.reservoirs@),
                res_window(self.reservoirs@, lo, hi),
                fresh_for(self.reservoirs@, current.seq),
                !current.is_sentinel(),
                lo < current.seq <= hi,
                forall|k: int|
                    0 <= k < n && (!m[k] || i <= k) ==> self.reservoirs@[k] == rs0[k],
                forall|k: int|
                    0 <= k < i && m[k] ==> (#[trigger] self.reservoirs@[k]).capacity()
                        == rs0[k].capacity() && self.reservoirs@[k].offered() == rs0[k].offered()
                        + 1 && self.reservoirs@[k].occupied() == rs0[k].occupied()
                        && rs0[k].occupied() == rs0[k].capacity(),
                first_room(rs0, m, 0) == first_room(rs0, m, i as int),
                self.seq == old(self).seq + 1,
                hi == self.seq as int,
                lo == old(self).pending_hi(),
                self.stats == old(self).stats,
                self.pending == old(self).pending,
                self.emitted@ == old(self).emitted@,
                self.filters == old(self).filters,
                self.bucket_duration_ns == old(self).bucket_duration_ns,
                self.bucket_start_ns == old(self).bucket_start_ns,
                self.last_release_ns == old(self).last_release_ns,
            decreases n - i,
        {
            let is_matched = matched[i];
            if is_matched {
                let ghost rs_b = self.reservoirs@;
                let ghost cur_b = current;
                let mut r = self.reservoirs.remove(i);
                proof {
                    assert(r == rs_b[i as int]);
                    assert(rs_b[i as int] == rs0[i as int]);
                    assert(rs0[i as int].wf());
                    assert(rs_b[i as int].offered() <= old(self).seq);
                    assert(rs_b[i as int].count < usize::MAX);
                }
                let out = r.sample(current);
                self.reservoirs.insert(i, r);
                proof {
                    assert(self.reservoirs@ =~= rs_b.update(i as int, r));
                }
                if out.is_empty() {
                    proof {
                        if rs_b[i as int].occupied() == rs_b[i as int].capacity() {
                            if out == cur_b {
                                assert(!out.is_sentinel());
                            } else {
                                let j = choose|j: int|
                                    0 <= j < rs_b[i as int].capacity() && out == rs_b[i as int].stored()[j] && r.stored() == rs_b[i as int].stored().update(
                                        j,
                                        cur_b,
                                    );
                                assert(!rs_b[i as int].stored()[j].is_sentinel());
                            }
                            assert(false);
                        }
                        assert(rs0[i as int].occupied() < rs0[i as int].capacity());
                        assert(first_room(rs0, m, i as int) == i as int);
                        lemma_res_update_push(rs_b, i as int, r, cur_b, lo, hi);
                        assert(r.stored() == rs_b[i as int].stored().push(cur_b));
                        assert(r.occupied() == rs_b[i as int].occupied() + 1);
                    }
                    self.stats.sampled = self.stats.sampled + 1;
                    proof {
                        assert forall|k: int|
                            0 <= k < self.reservoirs@.len() implies (
                        #[trigger] self.reservoirs@[k]).wf() && self.reservoirs@[k].capacity()
                            >= 1 && self.reservoirs@[k].offered() <= self.seq by {
                            if k != i as int {
                                assert(self.reservoirs@[k] == rs_b[k]);
                            }
                        }
                    }
                    return None;
                }
                proof {
                    if rs_b[i as int].occupied() < rs_b[i as int].capacity() {
                        assert(out.is_sentinel());
                        assert(false);
                    }
                    assert(rs0[i as int].occupied() == rs0[i as int].capacity());
                    lemma_first_room_skip(rs0, m, i as int);
                    if out == cur_b {
                        assert(r.stored() == rs_b[i as int].stored());
                        lemma_res_update_same(rs_b, i as int, r, lo, hi, cur_b.seq);
                    } else {
                        let j = choose|j: int|
                            0 <= j < rs_b[i as int].capacity() && out == rs_b[i as int].stored()[j]
                                && r.stored() == rs_b[i as int].stored().update(j, cur_b);
                        lemma_res_update_swap(rs_b, i as int, r, cur_b, j, lo, hi);
                        assert(!rs_b[i as int].stored()[j].is_sentinel());
                    }
                    assert(r.capacity() == rs0[i as int].capacity());
                    assert(r.offered() == rs0[i as int].offered() + 1);
                    assert(r.occupied() == rs0[i as int].occupied());
                    assert forall|k: int|
                        0 <= k < self.reservoirs@.len() implies (
                    #[trigger] self.reservoirs@[k]).wf() && self.reservoirs@[k].capacity()
                        >= 1 && self.reservoirs@[k].offered() <= self.seq by {
                        if k != i as int {
                            assert(self.reservoirs@[k] == rs_b[k]);
                        }
                    }
                }
                current = out;
            } else {
                proof {
                    lemma_first_room_skip(rs0, m, i as int);
                }
            }
            i = i + 1;
        }
        proof {
            assert(first_room(rs0, m, n as int) == n);
        }
        self.stats.dropped = self.stats.dropped + 1;
        Some(current.bytes)
    }
}

/// How many pending items the smear scheduler may release at `now`: all of
/// them once the bucket has ended or the per-item interval vanishes,
/// otherwise one per interval elapsed since the last release, where the
/// interval divides the time left in the bucket by the pending count.
pub open spec fn smear_quota(n: int, bucket_end: int, last_release: int, now: int) -> int
    recommends
        n >= 1,
{
    let remaining = if bucket_end >= now {
        bucket_end - now
    } else {
        0
    };
    if remaining == 0 {
        n
    } else {
        let interval = remaining / n;
        if interval == 0 {
            n
        } else {
            let since = if now >= last_release {
                now - last_release
            } else {
                0
            };
            since / interval
        }
    }
}

/// The number of pending items released at `now`: the quota, clamped to
/// what is pending.
pub open spec fn smear_released(s: Sampler, now: int) -> int {
    let n = s.pending@.len() as int;
    let quota = smear_quota(
        n,
        s.bucket_start_ns + s.bucket_duration_ns,
        s.last_release_ns as int,
        now,
    );
    if n == 0 {
        0
    } else if quota > n {
        n
    } else {
        quota
    }
}

/// Appending a batch of strictly ordered items, all newer than the last
/// emission, keeps the emission trace strictly increasing.
proof fn lemma_append_increasing(e: Seq<u64>, b: Seq<Item>)
    requires
        strictly_increasing(e),
        strict_by_seq(b),
        forall|k: int|
            0 <= k < b.len() ==> (if e.len() == 0 {
                0int
            } else {
                e.last() as int
            }) < (#[trigger] b[k]).seq,
    ensures
        strictly_increasing(e + seqs_of(b)),
{
    let c = e + seqs_of(b);
    assert forall|p: int, q: int|
        #![trigger c[p], c[q]]
        0 <= p < q < c.len() implies c[p] < c[q] by {
        if q < e.len() {
            assert(c[p] == e[p] && c[q] == e[q]);
        } else if p >= e.len() {
            assert(c[p] == b[p - e.len()].seq && c[q] == b[q - e.len()].seq);
        } else {
            assert(c[p] == e[p]);
            assert(c[q] == b[q - e.len()].seq);
            if p < e.len() - 1 {
                assert(e[p] < e[e.len() - 1]);
            }
            assert(e.last() < b[q - e.len()].seq);
        }
    }
}

impl Sampler {
    /// Release the pending items that the smear schedule owes at `now`:
    /// a prefix of the pending queue, paced so that the queue empties by the
    /// end of the bucket. The caller writes the batch to the sink.
    pub fn smear_collect(&mut self, now_ns: u64) -> (batch: Vec<Item>)
        requires
            old(self).wf(),
        ensures
            final(self).wf(),
            batch@ == old(self).pending@.take(smear_released(*old(self), now_ns as int)),
            final(self).pending@ == old(self).pending@.skip(
                smear_released(*old(self), now_ns as int),
            ),
            final(self).emitted@ == old(self).emitted@ + seqs_of(batch@),
            final(self).last_release_ns == (if smear_released(*old(self), now_ns as int) > 0 {
                now_ns
            } else {
                old(self).last_release_ns
            }),
            final(self).reservoirs == old(self).reservoirs,
            final(self).filters == old(self).filters,
            final(self).stats == old(self).stats,
            final(self).seq == old(self).seq,
            final(self).bucket_start_ns == old(self).bucket_start_ns,
            final(self).bucket_duration_ns == old(self).bucket_duration_ns,
            final(self).pending_hi() == old(self).pending_hi(),
            final(self).watermark() >= old(self).watermark(),
    {
        let ghost p0 = self.pending@;
        let n = self.pending.len();
        if n == 0 {
            proof {
                assert(seqs_of(Seq::<Item>::empty()) =~= Seq::<u64>::empty());
                assert(self.emitted@ + seqs_of(Seq::<Item>::empty()) =~= self.emitted@);
                assert(p0.take(0) =~= Seq::<Item>::empty());
                assert(p0.skip(0) =~= p0);
            }
            return Vec::new();
        }
        let bucket_end = self.bucket_start_ns + self.bucket_duration_ns;
        let remaining = if bucket_end >= now_ns {
            bucket_end - now_ns
        } else {
            0
        };
        let to_release: u64 = if remaining == 0 {
            n as u64
        } else {
            let interval = remaining / (n as u64);
            if interval == 0 {
                n as u64
            } else {
                let since = if now_ns >= self.last_release_ns {
                    now_ns - self.last_release_ns
                } else {
                    0
                };
                since / interval
            }
        };
        let k: usize = if to_release >= n as u64 {
            n
        } else {
            to_release as usize
        };
        proof {
            assert(k as int == smear_released(*old(self), now_ns as int));
        }
        if k == 0 {
            proof {
                assert(seqs_of(Seq::<Item>::empty()) =~= Seq::<u64>::empty());
                assert(self.emitted@ + seqs_of(Seq::<Item>::empty()) =~= self.emitted@);
                assert(p0.take(0) =~= Seq::<Item>::empty());
                assert(p0.skip(0) =~= p0);
            }
            return Vec::new();
        }
        let mut batch: Vec<Item> = Vec::new();
        let mut c: usize = 0;
        while c < k
            invariant
                c <= k,
                k <= p0.len(),
                batch@ == p0.take(c as int),
                self.pending@ == p0.skip(c as int),
                self.reservoirs == old(self).reservoirs,
                self.filters == old(self).filters,
                self.stats == old(self).stats,
                self.seq == old(self).seq,
                self.bucket_start_ns == old(self).bucket_start_ns,
                self.bucket_duration_ns == old(self).bucket_duration_ns,
                self.last_release_ns == old(self).last_release_ns,
                self.emitted@ == old(self).emitted@,
            decreases k - c,
        {
            let it = self.pending.remove(0);
            batch.push(it);
            proof {
                assert(batch@ =~= p0.take(c as int + 1));
                assert(self.pending@ =~= p0.skip(c as int + 1));
            }
            c = c + 1;
        }
        self.last_release_ns = now_ns;
        self.emitted = Ghost(self.emitted@ + seqs_of(batch@));
        proof {
            assert(old(self).wf());
            assert(strict_by_seq(batch@)) by {
                assert forall|p: int, q: int|
                    #![trigger batch@[p], batch@[q]]
                    0 <= p < q < batch@.len() implies batch@[p].seq < batch@[q].seq by {
                    assert(batch@[p] == p0[p]);
                    assert(batch@[q] == p0[q]);
                }
            }
            assert forall|j: int|
                0 <= j < batch@.len() implies old(self).watermark() < (
            #[trigger] batch@[j]).seq by {
                assert(batch@[j] == p0[j]);
            }
            lemma_append_increasing(old(self).emitted@, batch@);
            assert forall|j: int|
                0 <= j < self.emitted@.len() implies 0 < #[trigger] self.emitted@[j]
                <= self.seq by {
                if j < old(self).emitted@.len() {
                    assert(self.emitted@[j] == old(self).emitted@[j]);
                } else {
                    assert(self.emitted@[j] == seqs_of(batch@)[j - old(self).emitted@.len()]);
                    assert(seqs_of(batch@)[j - old(self).emitted@.len()] == batch@[j - old(self).emitted@.len()].seq);
                    assert(batch@[j - old(self).emitted@.len()] == p0[j - old(self).emitted@.len()]);
                }
            }
            assert(self.watermark() == batch@.last().seq) by {
                assert(self.emitted@.len() > 0);
                assert(self.emitted@.last() == seqs_of(batch@)[batch@.len() - 1]);
                assert(seqs_of(batch@)[batch@.len() - 1] == batch@[batch@.len() - 1].seq);
            }
            assert(batch@.last() == p0[k - 1]);
            assert forall|j: int|
                0 <= j < self.pending@.len() implies self.watermark() < (
            #[trigger] self.pending@[j]).seq <= self.seq by {
                assert(self.pending@[j] == p0[j + k]);
            }
            assert(strict_by_seq(self.pending@)) by {
                assert forall|p: int, q: int|
                    #![trigger self.pending@[p], self.pending@[q]]
                    0 <= p < q < self.pending@.len() implies self.pending@[p].seq
                    < self.pending@[q].seq by {
                    assert(self.pending@[p] == p0[p + k]);
                    assert(self.pending@[q] == p0[q + k]);
                }
            }
            assert(self.pending_hi() == old(self).pending_hi()) by {
                if self.pending@.len() > 0 {
                    assert(self.pending@.last() == p0[p0.len() - 1]);
                } else {
                    assert(k == p0.len());
                }
            }
            assert(res_window(self.reservoirs@, self.pending_hi(), self.seq as int));
        }
        batch
    }
}

impl Sampler {
    /// Close the current bucket at `now`: append the still-pending items of
    /// the previous bucket to `batch` (the caller writes them first), then
    /// drain every reservoir into the pending queue, sorted by arrival
    /// sequence number, to be smeared over the next bucket.
    pub fn rotate_bucket(&mut self, batch: &mut Vec<Item>, now_ns: u64)
        requires
            old(self).wf(),
            now_ns + old(self).bucket_duration_ns <= u64::MAX,
        ensures
            final(self).wf(),
            final(batch)@ == old(batch)@ + old(self).pending@,
            final(self).pending@.len() == total_occ(old(self).reservoirs@),
            final(self).pending@.to_multiset() == stored_all(old(self).reservoirs@).to_multiset(),
            strict_by_seq(final(self).pending@),
            final(self).reservoirs@.len() == old(self).reservoirs@.len(),
            forall|i: int|
                0 <= i < old(self).budgets() ==> (#[trigger] final(self).reservoirs@[i]).capacity()
                    == old(self).reservoirs@[i].capacity() && final(self).reservoirs@[i].offered()
                    == 0,
            total_occ(final(self).reservoirs@) == 0,
            final(self).bucket_start_ns == now_ns,
            final(self).last_release_ns == now_ns,
            final(self).emitted@ == old(self).emitted@ + seqs_of(old(self).pending@),
            final(self).seq == old(self).seq,
            final(self).stats == old(self).stats,
            final(self).filters == old(self).filters,
            final(self).bucket_duration_ns == old(self).bucket_duration_ns,
    {
        let ghost p0 = self.pending@;
        let mut c: usize = 0;
        let k = self.pending.len();
        while c < k
            invariant
                c <= k,
                k == p0.len(),
                batch@ == old(batch)@ + p0.take(c as int),
                self.pending@ == p0.skip(c as int),
                self.reservoirs == old(self).reservoirs,
                self.filters == old(self).filters,
                self.stats == old(self).stats,
                self.seq == old(self).seq,
                self.bucket_start_ns == old(self).bucket_start_ns,
                self.bucket_duration_ns == old(self).bucket_duration_ns,
                self.last_release_ns == old(self).last_release_ns,
                self.emitted@ == old(self).emitted@,
            decreases k - c,
        {
            let it = self.pending.remove(0);
            batch.push(it);
            proof {
                assert(batch@ =~= old(batch)@ + p0.take(c as int + 1));
                assert(self.pending@ =~= p0.skip(c as int + 1));
            }
            c = c + 1;
        }
        self.emitted = Ghost(self.emitted@ + seqs_of(p0));
        proof {
            assert(p0.take(k as int) =~= p0);
            assert(p0.skip(k as int) =~= Seq::<Item>::empty());
            assert(old(self).wf());
            lemma_append_increasing(old(self).emitted@, p0);
            assert forall|j: int|
                0 <= j < self.emitted@.len() implies 0 < #[trigger] self.emitted@[j]
                <= self.seq by {
                if j < old(self).emitted@.len() {
                    assert(self.emitted@[j] == old(self).emitted@[j]);
                } else {
                    assert(self.emitted@[j] == seqs_of(p0)[j - old(self).emitted@.len()]);
                    assert(seqs_of(p0)[j - old(self).emitted@.len()] == p0[j - old(self).emitted@.len()].seq);
                }
            }
            assert(self.pending_hi() == old(self).pending_hi()) by {
                if p0.len() > 0 {
                    assert(self.emitted@.last() == seqs_of(p0)[p0.len() - 1]);
                    assert(seqs_of(p0)[p0.len() - 1] == p0[p0.len() - 1].seq);
                }
            }
            assert(self.wf());
        }
        let ghost mid = *self;
        let drained = self.drain_all();
        self.pending = drained;
        self.bucket_start_ns = now_ns;
        self.last_release_ns = now_ns;
        proof {
            assert(stored_all(mid.reservoirs@) == stored_all(old(self).reservoirs@));
            assert(total_occ(mid.reservoirs@) == total_occ(old(self).reservoirs@));
            assert forall|j: int|
                0 <= j < self.pending@.len() implies self.watermark() < (
            #[trigger] self.pending@[j]).seq <= self.seq by {
                assert(mid.pending_hi() < self.pending@[j].seq <= mid.seq);
            }
            assert(res_window(self.reservoirs@, self.pending_hi(), self.seq as int)) by {
                assert forall|a: int, b: int|
                    #![trigger self.reservoirs@[a].stored()[b]]
                    0 <= a < self.reservoirs@.len() && 0 <= b
                        < self.reservoirs@[a].stored().len() implies false by {
                    assert(self.reservoirs@[a].stored().len() == 0);
                }
            }
            assert(res_distinct(self.reservoirs@)) by {
                assert forall|a: int, b: int, c: int, d: int|
                    #![trigger self.reservoirs@[a].stored()[b], self.reservoirs@[c].stored()[d]]
                    0 <= a < self.reservoirs@.len() && 0 <= b < self.reservoirs@[a].stored().len()
                        && 0 <= c < self.reservoirs@.len() && 0 <= d
                        < self.reservoirs@[c].stored().len() && (a != c || b != d) implies false by {
                    assert(self.reservoirs@[a].stored().len() == 0);
                }
            }
            assert(self.wf());
        }
    }

    /// The per-event clock tick: release what the smear schedule owes at
    /// `now`, and when the bucket boundary has passed, flush the rest of the
    /// pending queue and rotate the bucket. The returned batch is what the
    /// caller must now write to the sink, in order.
    pub fn tick_smear(&mut self, now_ns: u64) -> (batch: Vec<Item>)
        requires
            old(self).wf(),
            now_ns + old(self).bucket_duration_ns <= u64::MAX,
        ensures
            final(self).wf(),
            final(self).seq == old(self).seq,
            final(self).stats == old(self).stats,
            final(self).filters == old(self).filters,
            final(self).bucket_duration_ns == old(self).bucket_duration_ns,
            final(self).emitted@ == old(self).emitted@ + seqs_of(batch@),
            strict_by_seq(batch@),
            ({
                let elapsed = if now_ns >= old(self).bucket_start_ns {
                    now_ns - old(self).bucket_start_ns
                } else {
                    0
                };
                if elapsed >= old(self).bucket_duration_ns {
                    &&& batch@ == old(self).pending@
                    &&& final(self).pending@.len() == total_occ(old(self).reservoirs@)
                    &&& final(self).pending@.to_multiset() == stored_all(
                        old(self).reservoirs@,
                    ).to_multiset()
                    &&& final(self).reservoirs@.len() == old(self).reservoirs@.len()
                    &&& forall|i: int|
                        0 <= i < old(self).budgets() ==> (#[trigger] final(self).reservoirs@[i]).capacity() == old(self).reservoirs@[i].capacity()
                            && final(self).reservoirs@[i].offered() == 0
                    &&& total_occ(final(self).reservoirs@) == 0
                    &&& final(self).bucket_start_ns == now_ns
                    &&& final(self).last_release_ns == now_ns
                } else {
                    &&& batch@ == old(self).pending@.take(
                        smear_released(*old(self), now_ns as int),
                    )
                    &&& final(self).pending@ == old(self).pending@.skip(
                        smear_released(*old(self), now_ns as int),
                    )
                    &&& final(self).reservoirs == old(self).reservoirs
                    &&& final(self).bucket_start_ns == old(self).bucket_start_ns
                }
            }),
    {
        let mut batch = self.smear_collect(now_ns);
        let elapsed = if now_ns >= self.bucket_start_ns {
            now_ns - self.bucket_start_ns
        } else {
            0
        };
        if elapsed >= self.bucket_duration_ns {
            let ghost released = smear_released(*old(self), now_ns as int);
            self.rotate_bucket(&mut batch, now_ns);
            proof {
                assert(batch@ =~= old(self).pending@.take(released) + old(self).pending@.skip(
                    released,
                ));
                assert(batch@ =~= old(self).pending@);
                assert(seqs_of(old(self).pending@.take(released)) + seqs_of(
                    old(self).pending@.skip(released),
                ) =~= seqs_of(old(self).pending@));
                assert(self.emitted@ =~= old(self).emitted@ + seqs_of(batch@));
                assert(strict_by_seq(batch@)) by {
                    assert(old(self).wf());
                }
            }
        }
        batch
    }
}

impl Sampler {
    /// Drain the pending queue and every reservoir and hand all of it back
    /// for synchronous writing: first the still-pending items of the
    /// previous bucket, then the current bucket's survivors sorted by
    /// arrival sequence number. Afterwards the engine holds no items, so an
    /// immediately following `flush` returns an empty batch.
    pub fn flush(&mut self) -> (out: Vec<Item>)
        requires
            old(self).wf(),
        ensures
            final(self).wf(),
            out@.len() == old(self).pending@.len() + total_occ(old(self).reservoirs@),
            out@.subrange(0, old(self).pending@.len() as int) == old(self).pending@,
            out@.skip(old(self).pending@.len() as int).to_multiset() == stored_all(
                old(self).reservoirs@,
            ).to_multiset(),
            strict_by_seq(out@),
            final(self).pending@.len() == 0,
            total_occ(final(self).reservoirs@) == 0,
            final(self).reservoirs@.len() == old(self).reservoirs@.len(),
            forall|i: int|
                0 <= i < old(self).budgets() ==> (#[trigger] final(self).reservoirs@[i]).capacity()
                    == old(self).reservoirs@[i].capacity() && final(self).reservoirs@[i].offered()
                    == 0,
            final(self).emitted@ == old(self).emitted@ + seqs_of(out@),
            final(self).seq == old(self).seq,
            final(self).stats == old(self).stats,
            final(self).filters == old(self).filters,
            final(self).bucket_duration_ns == old(self).bucket_duration_ns,
            final(self).bucket_start_ns == old(self).bucket_start_ns,
            final(self).last_release_ns == old(self).last_release_ns,
    {
        let ghost p0 = self.pending@;
        let mut out: Vec<Item> = Vec::new();
        let mut c: usize = 0;
        let k = self.pending.len();
        while c < k
            invariant
                c <= k,
                k == p0.len(),
                out@ == p0.take(c as int),
                self.pending@ == p0.skip(c as int),
                self.reservoirs == old(self).reservoirs,
                self.filters == old(self).filters,
                self.stats == old(self).stats,
                self.seq == old(self).seq,
                self.bucket_start_ns == old(self).bucket_start_ns,
                self.bucket_duration_ns == old(self).bucket_duration_ns,
                self.last_release_ns == old(self).last_release_ns,
                self.emitted@ == old(self).emitted@,
            decreases k - c,
        {
            let it = self.pending.remove(0);
            out.push(it);
            proof {
                assert(out@ =~= p0.take(c as int + 1));
                assert(self.pending@ =~= p0.skip(c as int + 1));
            }
            c = c + 1;
        }
        self.emitted = Ghost(self.emitted@ + seqs_of(p0));
        proof {
            assert(p0.take(k as int) =~= p0);
            assert(p0.skip(k as int) =~= Seq::<Item>::empty());
            assert(old(self).wf());
            lemma_append_increasing(old(self).emitted@, p0);
            assert forall|j: int|
                0 <= j < self.emitted@.len() implies 0 < #[trigger] self.emitted@[j]
                <= self.seq by {
                if j < old(self).emitted@.len() {
                    assert(self.emitted@[j] == old(self).emitted@[j]);
                } else {
                    assert(self.emitted@[j] == seqs_of(p0)[j - old(self).emitted@.len()]);
                    assert(seqs_of(p0)[j - old(self).emitted@.len()] == p0[j - old(self).emitted@.len()].seq);
                }
            }
            assert(self.pending_hi() == old(self).pending_hi()) by {
                if p0.len() > 0 {
                    assert(self.emitted@.last() == seqs_of(p0)[p0.len() - 1]);
                    assert(seqs_of(p0)[p0.len() - 1] == p0[p0.len() - 1].seq);
                }
            }
            assert(self.wf());
        }
        let ghost mid = *self;
        let mut drained = self.drain_all();
        let ghost d = drained@;
        out.append(&mut drained);
        self.emitted = Ghost(self.emitted@ + seqs_of(d));
        proof {
            assert(stored_all(mid.reservoirs@) == stored_all(old(self).reservoirs@));
            assert(total_occ(mid.reservoirs@) == total_occ(old(self).reservoirs@));
            assert(out@ == p0 + d);
            assert(out@.subrange(0, p0.len() as int) =~= p0);
            assert(out@.skip(p0.len() as int) =~= d);
            assert(strict_by_seq(out@)) by {
                assert forall|p: int, q: int|
                    #![trigger out@[p], out@[q]]
                    0 <= p < q < out@.len() implies out@[p].seq < out@[q].seq by {
                    if q < p0.len() {
                        assert(out@[p] == p0[p] && out@[q] == p0[q]);
                        assert(old(self).wf());
                    } else if p >= p0.len() {
                        assert(out@[p] == d[p - p0.len()] && out@[q] == d[q - p0.len()]);
                    } else {
                        assert(out@[p] == p0[p] && out@[q] == d[q - p0.len()]);
                        assert(p0[p].seq <= mid.pending_hi());
                        assert(mid.pending_hi() < d[q - p0.len()].seq);
                    }
                }
            }
            assert forall|j: int|
                0 <= j < out@.len() implies old(self).watermark() < (#[trigger] out@[j]).seq
                <= self.seq by {
                if j < p0.len() {
                    assert(out@[j] == p0[j]);
                } else {
                    assert(out@[j] == d[j - p0.len()]);
                    assert(mid.pending_hi() < d[j - p0.len()].seq <= mid.seq);
                    assert(mid.pending_hi() >= old(self).watermark());
                }
            }
            lemma_append_increasing(old(self).emitted@, out@);
            assert(self.emitted@ =~= old(self).emitted@ + seqs_of(out@)) by {
                assert(seqs_of(p0) + seqs_of(d) =~= seqs_of(out@));
            }
            assert(self.emitted@ == old(self).emitted@ + seqs_of(out@));
            assert forall|j: int|
                0 <= j < self.emitted@.len() implies 0 < #[trigger] self.emitted@[j]
                <= self.seq by {
                if j < old(self).emitted@.len() {
                    assert(self.emitted@[j] == old(self).emitted@[j]);
                } else {
                    assert(self.emitted@[j] == seqs_of(out@)[j - old(self).emitted@.len()]);
                    assert(seqs_of(out@)[j - old(self).emitted@.len()] == out@[j - old(self).emitted@.len()].seq);
                }
            }
            assert(res_window(self.reservoirs@, self.pending_hi(), self.seq as int)) by {
                assert forall|a: int, b: int|
                    #![trigger self.reservoirs@[a].stored()[b]]
                    0 <= a < self.reservoirs@.len() && 0 <= b
                        < self.reservoirs@[a].stored().len() implies false by {
                    assert(self.reservoirs@[a].stored().len() == 0);
                }
            }
            assert(res_distinct(self.reservoirs@)) by {
                assert forall|a: int, b: int, c2: int, d2: int|
                    #![trigger self.reservoirs@[a].stored()[b], self.reservoirs@[c2].stored()[d2]]
                    0 <= a < self.reservoirs@.len() && 0 <= b < self.reservoirs@[a].stored().len()
                        && 0 <= c2 < self.reservoirs@.len() && 0 <= d2
                        < self.reservoirs@[c2].stored().len() && (a != c2 || b != d2) implies false by {
                    assert(self.reservoirs@[a].stored().len() == 0);
                }
            }
            assert(self.wf());
        }
        out
    }

    /// Tear the engine down: a final, implicit flush. The batch handed back
    /// is exactly what `flush` would have emitted from the same state; the
    /// engine itself is consumed.
    pub fn teardown(self) -> (out: Vec<Item>)
        requires
            self.wf(),
        ensures
            out@.len() == self.pending@.len() + total_occ(self.reservoirs@),
            out@.subrange(0, self.pending@.len() as int) == self.pending@,
            out@.skip(self.pending@.len() as int).to_multiset() == stored_all(
                self.reservoirs@,
            ).to_multiset(),
            strict_by_seq(out@),
    {
        let mut s = self;
        s.flush()
    }
}

/// Whether a tick at `now` crosses the bucket boundary and rotates.
pub open spec fn rotates(s: Sampler, now: int) -> bool {
    (if now >= s.bucket_start_ns {
        now - s.bucket_start_ns
    } else {
        0
    }) >= s.bucket_duration_ns
}

impl Sampler {
    /// The full per-event pipeline on one thread: evaluate the filters; if
    /// no budget admits the event, discard it untouched. Otherwise account
    /// it, tick the smear clock (rotating the bucket when its boundary has
    /// passed), and offer the pre-formatted bytes to the matching
    /// reservoirs. Empty bytes mean formatting failed: the event counts as
    /// dropped. The first component of the result is the batch the caller
    /// must now write to the sink, in order; the second, when present, is
    /// the unsampled payload handed back for buffer reuse.
    pub fn on_event(&mut self, level: Level, bytes: Vec<u8>, now_ns: u64) -> (r: (
        Vec<Item>,
        Option<Vec<u8>>,
    ))
        requires
            old(self).wf(),
            old(self).in_flight() == 0,
            old(self).stats.received < u64::MAX,
            old(self).seq < usize::MAX as u64,
            now_ns + old(self).bucket_duration_ns <= u64::MAX,
        ensures
            final(self).wf(),
            final(self).in_flight() == 0,
            final(self).emitted@ == old(self).emitted@ + seqs_of(r.0@),
            strict_by_seq(r.0@),
            final(self).filters == old(self).filters,
            final(self).bucket_duration_ns == old(self).bucket_duration_ns,
            (forall|i: int|
                0 <= i < old(self).budgets() ==> !old(self).admit_mask(level)[i]) ==> (*final(self)
                == *old(self) && r.0@.len() == 0 && r.1 == Some(bytes)),
            (exists|i: int| 0 <= i < old(self).budgets() && old(self).admit_mask(level)[i]) ==> ({
                &&& final(self).stats.received == old(self).stats.received + 1
                &&& (bytes@.len() == 0 ==> final(self).stats.dropped == old(self).stats.dropped + 1
                    && final(self).stats.sampled == old(self).stats.sampled && final(self).seq
                    == old(self).seq && r.1 is None)
                &&& (bytes@.len() > 0 ==> final(self).seq == old(self).seq + 1 && final(self).stats.sampled + final(self).stats.dropped == old(self).stats.sampled + old(self).stats.dropped + 1 && (r.1 is None <==> final(self).stats.sampled == old(self).stats.sampled + 1))
            }),
            (exists|i: int| 0 <= i < old(self).budgets() && old(self).admit_mask(level)[i])
                && bytes@.len() > 0 && !rotates(*old(self), now_ns as int) ==> (r.1 is None <==>
            first_room(old(self).reservoirs@, old(self).admit_mask(level), 0) < old(self).budgets()),
            (exists|i: int| 0 <= i < old(self).budgets() && old(self).admit_mask(level)[i])
                && bytes@.len() > 0 && !rotates(*old(self), now_ns as int) ==> final(self).reservoirs@.len() == old(self).budgets(),
            (exists|i: int| 0 <= i < old(self).budgets() && old(self).admit_mask(level)[i])
                && bytes@.len() > 0 && !rotates(*old(self), now_ns as int) ==> forall|k: int|
                0 <= k < old(self).budgets() && (!old(self).admit_mask(level)[k] || k > first_room(
                    old(self).reservoirs@,
                    old(self).admit_mask(level),
                    0,
                )) ==> final(self).reservoirs@[k] == old(self).reservoirs@[k],
            (exists|i: int| 0 <= i < old(self).budgets() && old(self).admit_mask(level)[i])
                && bytes@.len() > 0 && !rotates(*old(self), now_ns as int) && first_room(
                old(self).reservoirs@,
                old(self).admit_mask(level),
                0,
            ) < old(self).budgets() ==> final(self).reservoirs@[first_room(
                old(self).reservoirs@,
                old(self).admit_mask(level),
                0,
            )].occupied() == old(self).reservoirs@[first_room(
                old(self).reservoirs@,
                old(self).admit_mask(level),
                0,
            )].occupied() + 1,
    {
        let ghost b0 = bytes@;
        let mask = self.match_filters(level);
        let any = self.enabled(level);
        proof {
            assert forall|i: int|
                0 <= i < old(self).budgets() implies #[trigger] old(self).admit_mask(level)[i]
                == old(self).filters@[i].admits(level) by {}
            if any {
                let j = choose|j: int|
                    0 <= j < old(self).filters@.len() && (#[trigger] old(self).filters@[j]).admits(
                        level,
                    );
                assert(old(self).admit_mask(level)[j]);
                assert(exists|i: int|
                    0 <= i < old(self).budgets() && old(self).admit_mask(level)[i]);
            }
        }
        if !any {
            proof {
                assert(seqs_of(Seq::<Item>::empty()) =~= Seq::<u64>::empty());
                assert(self.emitted@ + seqs_of(Seq::<Item>::empty()) =~= self.emitted@);
            }
            return (Vec::new(), Some(bytes));
        }
        self.account_received();
        let batch = self.tick_smear(now_ns);
        if bytes.len() == 0 {
            self.account_format_failure();
            return (batch, None);
        }
        let ghost pre_sample = *self;
        let leftover = self.sample_event(bytes, &mask);
        proof {
            if !rotates(*old(self), now_ns as int) {
                assert(pre_sample.reservoirs == old(self).reservoirs);
                let f = first_room(old(self).reservoirs@, old(self).admit_mask(level), 0);
                let n = old(self).budgets();
                assert(first_room(pre_sample.reservoirs@, mask@, 0) == f);
                assert forall|k: int|
                    0 <= k < n && (!old(self).admit_mask(level)[k] || k > f) implies
                    self.reservoirs@[k] == old(self).reservoirs@[k] by {
                    assert(mask@[k] == old(self).admit_mask(level)[k]);
                    assert(pre_sample.reservoirs@[k] == old(self).reservoirs@[k]);
                }
            }
        }
        (batch, leftover)
    }
}

/// Capacity of a budget: its per-second rate converted to a per-bucket item
/// count, rounded up.
pub open spec fn capacity_of(rate_per_second: u64, bucket_duration_ns: u64) -> int {
    (rate_per_second * bucket_duration_ns + 999_999_999) / 1_000_000_000
}

/// Whether a budget with this rate survives the build: true exactly when
/// its per-bucket capacity rounds above zero. An embedder that keeps its
/// own per-budget state alongside the engine's reservoirs uses this to
/// skip the same budgets the build skips.
pub fn budget_kept(rate_per_second: u64, bucket_duration_ns: u64) -> (r: bool)
    ensures
        r == (capacity_of(rate_per_second, bucket_duration_ns) > 0),
{
    proof {
        assert((rate_per_second as int) * (bucket_duration_ns as int) <= (0xffff_ffff_ffff_ffffu64
            as int) * (0xffff_ffff_ffff_ffffu64 as int)) by (nonlinear_arith)
            requires
                rate_per_second <= 0xffff_ffff_ffff_ffffu64,
                bucket_duration_ns <= 0xffff_ffff_ffff_ffffu64,
        ;
    }
    let prod: u128 = (rate_per_second as u128) * (bucket_duration_ns as u128);
    let k128: u128 = (prod + 999_999_999) / 1_000_000_000;
    proof {
        assert(k128 == capacity_of(rate_per_second, bucket_duration_ns));
    }
    k128 > 0
}

/// The budgets kept at build time, paired with their per-bucket capacities:
/// a budget whose capacity rounds to zero is silently omitted.
pub open spec fn kept_budgets(budgets: Seq<(LevelFilter, u64)>, bucket_duration_ns: u64) -> Seq<
    (LevelFilter, int),
>
    decreases budgets.len(),
{
    if budgets.len() == 0 {
        Seq::<(LevelFilter, int)>::empty()
    } else {
        let head = kept_budgets(budgets.drop_last(), bucket_duration_ns);
        let k = capacity_of(budgets.last().1, bucket_duration_ns);
        if k == 0 {
            head
        } else {
            head.push((budgets.last().0, k))
        }
    }
}

/// Configuration for a `Sampler`: an ordered list of budgets and the bucket
/// length. The default bucket length is 50 ms.
pub struct SamplerBuilder {
    pub budgets: Vec<(LevelFilter, u64)>,
    pub bucket_duration_ns: u64,
}

impl SamplerBuilder {
    pub fn new() -> (r: SamplerBuilder)
        ensures
            r.budgets@.len() == 0,
            r.bucket_duration_ns == 50_000_000,
    {
        SamplerBuilder { budgets: Vec::new(), bucket_duration_ns: 50_000_000 }
    }

    /// Append a budget: a filter and a per-second event limit. Order is
    /// significant; earlier budgets stand earlier in the cascade.
    pub fn budget(self, filter: LevelFilter, rate_per_second: u64) -> (r: SamplerBuilder)
        ensures
            r.budgets@ == self.budgets@.push((filter, rate_per_second)),
            r.bucket_duration_ns == self.bucket_duration_ns,
    {
        let mut b = self;
        b.budgets.push((filter, rate_per_second));
        b
    }

    /// Set the bucket length in nanoseconds.
    pub fn bucket_duration(self, duration_ns: u64) -> (r: SamplerBuilder)
        ensures
            r.budgets@ == self.budgets@,
            r.bucket_duration_ns == duration_ns,
    {
        let mut b = self;
        b.bucket_duration_ns = duration_ns;
        b
    }

    /// Finalize the configuration. Each budget's capacity is
    /// `ceil(rate × bucket duration)` items per bucket; budgets whose
    /// capacity rounds to zero are dropped. A bucket duration of zero is a
    /// configuration error and is excluded up front.
    pub fn build(self) -> (r: Sampler)
        requires
            self.bucket_duration_ns >= 1,
            forall|i: int|
                0 <= i < self.budgets@.len() ==> capacity_of(
                    (#[trigger] self.budgets@[i]).1,
                    self.bucket_duration_ns,
                ) <= usize::MAX,
        ensures
            r.wf(),
            r.budgets() == kept_budgets(self.budgets@, self.bucket_duration_ns).len(),
            r.filters@ == kept_budgets(self.budgets@, self.bucket_duration_ns).map_values(
                |p: (LevelFilter, int)| p.0,
            ),
            forall|i: int|
                0 <= i < r.budgets() ==> (#[trigger] r.reservoirs@[i]).capacity() == kept_budgets(
                    self.budgets@,
                    self.bucket_duration_ns,
                )[i].1,
            forall|i: int| 0 <= i < r.budgets() ==> (#[trigger] r.reservoirs@[i]).offered() == 0,
            r.bucket_duration_ns == self.bucket_duration_ns,
            r.bucket_start_ns == 0,
            r.last_release_ns == 0,
            r.seq == 0,
            r.pending@.len() == 0,
            r.emitted@.len() == 0,
            r.stats.received == 0,
            r.stats.sampled == 0,
            r.stats.dropped == 0,
    {
        let mut filters: Vec<LevelFilter> = Vec::new();
        let mut reservoirs: Vec<Reservoir> = Vec::new();
        let n = self.budgets.len();
        let mut i: usize = 0;
        while i < n
            invariant
                i <= n,
                n == self.budgets@.len(),
                self.bucket_duration_ns >= 1,
                forall|k: int|
                    0 <= k < n ==> capacity_of(
                        (#[trigger] self.budgets@[k]).1,
                        self.bucket_duration_ns,
                    ) <= usize::MAX,
                filters@.len() == reservoirs@.len(),
                filters@ == kept_budgets(
                    self.budgets@.take(i as int),
                    self.bucket_duration_ns,
                ).map_values(|p: (LevelFilter, int)| p.0),
                forall|k: int|
                    0 <= k < reservoirs@.len() ==> (#[trigger] reservoirs@[k]).capacity()
                        == kept_budgets(self.budgets@.take(i as int), self.bucket_duration_ns)[k].1,
                forall|k: int|
                    0 <= k < reservoirs@.len() ==> (#[trigger] reservoirs@[k]).offered() == 0
                        && reservoirs@[k].wf() && reservoirs@[k].capacity() >= 1
                        && reservoirs@[k].stored().len() == 0,
            decreases n - i,
        {
            let (filter, rate) = self.budgets[i];
            let prod: u128 = (rate as u128) * (self.bucket_duration_ns as u128);
            let k128: u128 = (prod + 999_999_999) / 1_000_000_000;
            proof {
                assert(self.budgets@.take(i as int + 1).drop_last() =~= self.budgets@.take(
                    i as int,
                ));
                assert(self.budgets@.take(i as int + 1).last() == self.budgets@[i as int]);
                assert(k128 == capacity_of(rate, self.bucket_duration_ns));
            }
            if k128 > 0 {
                assert(k128 <= usize::MAX);
                filters.push(filter);
                reservoirs.push(Reservoir::new(k128 as usize));
            }
            i = i + 1;
        }
        proof {
            assert(self.budgets@.take(n as int) =~= self.budgets@);
        }
        let r = Sampler {
            filters,
            reservoirs,
            bucket_duration_ns: self.bucket_duration_ns,
            bucket_start_ns: 0,
            last_release_ns: 0,
            seq: 0,
            pending: Vec::new(),
            stats: Stats::new(),
            emitted: Ghost(Seq::<u64>::empty()),
        };
        r
    }
}

} // verus!

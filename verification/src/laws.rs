//! The election-wide guarantees of the count, proved over the model: ballot
//! conservation, quota correctness, the winner-count bound, and determinism.
use crate::model::{
    assign_first_prefs, count_cont, count_nonelim, elect_from, elected_prefix, elim_done,
    empty_piles, init_status, keep_unremoved, lemma_count_bounds, lemma_count_cont_exists,
    lemma_count_elim_target, lemma_count_same_elim, lemma_next_pref_cont,
    lemma_redistribute_status, lemma_select_from_props, min_over_from, next_pref_from, order_rec,
    pile_sizes, redistribute, scan_all, scan_row, scan_visit, select_from, slots,
    spec_droop_quota, spec_elim_loop, spec_elim_round, spec_final_state, spec_surplus_one,
    spec_tabulate, spec_tabulate_elected, surplus_order, surplus_seq, survivors_prefix,
    zero_elim_from, Ballot, ScanModel, Status, TallyModel,
};
use vstd::prelude::*;

verus! {

/// The total number of ballots resting on the piles `[0, c)`.
pub open spec fn sum_sizes(piles: Seq<Seq<u32>>, c: int) -> int
    decreases c,
{
    if c <= 0 {
        0
    } else {
        sum_sizes(piles, c - 1) + piles[c - 1].len()
    }
}

/// How many of the first `j` flags are set.
pub open spec fn count_true(bs: Seq<bool>, j: int) -> int
    decreases j,
{
    if j <= 0 {
        0
    } else {
        count_true(bs, j - 1) + if bs[j - 1] {
            1int
        } else {
            0int
        }
    }
}

/// Updating one pile changes the total by the difference at that slot.
proof fn lemma_sum_update(piles: Seq<Seq<u32>>, i: int, v: Seq<u32>, c: int)
    requires
        0 <= i < piles.len(),
        c <= piles.len(),
    ensures
        c <= i ==> sum_sizes(piles.update(i, v), c) == sum_sizes(piles, c),
        i < c ==> sum_sizes(piles.update(i, v), c) == sum_sizes(piles, c) - piles[i].len()
            + v.len(),
    decreases c,
{
    if c <= 0 {
    } else {
        lemma_sum_update(piles, i, v, c - 1);
    }
}

/// Empty piles hold no ballots.
proof fn lemma_sum_empty(c: int)
    requires
        c <= slots(),
    ensures
        sum_sizes(empty_piles(), c) == 0,
    decreases c,
{
    if c <= 0 {
    } else {
        lemma_sum_empty(c - 1);
    }
}

/// After the first `n` ballots are placed, the piles hold exactly `n`.
proof fn lemma_assign_sum(ballots: Seq<Ballot>, n: int)
    requires
        0 <= n,
    ensures
        assign_first_prefs(ballots, n).len() == slots(),
        sum_sizes(assign_first_prefs(ballots, n), slots()) == n,
    decreases n,
{
    if n <= 0 {
        lemma_sum_empty(slots());
    } else {
        lemma_assign_sum(ballots, n - 1);
        let prev = assign_first_prefs(ballots, n - 1);
        let c = ballots[n - 1]@[0] as int;
        lemma_sum_update(prev, c, prev[c].push((n - 1) as u32), slots());
    }
}

/// Setting one unset flag raises the count by one.
proof fn lemma_count_true_update(bs: Seq<bool>, j: int, n: int)
    requires
        0 <= j < bs.len(),
        n <= bs.len(),
        !bs[j],
    ensures
        j < n ==> count_true(bs.update(j, true), n) == count_true(bs, n) + 1,
        j >= n ==> count_true(bs.update(j, true), n) == count_true(bs, n),
    decreases n,
{
    if n <= 0 {
    } else {
        lemma_count_true_update(bs, j, n - 1);
    }
}

/// What survives a scan is the snapshot minus the moved ballots.
proof fn lemma_keep_len(pile0: Seq<u32>, removed: Seq<bool>, j: int)
    requires
        j <= pile0.len(),
        j <= removed.len(),
        0 <= count_true(removed, j) <= j,
    ensures
        keep_unremoved(pile0, removed, j).len() == j - count_true(removed, j),
    decreases j,
{
    if j <= 0 {
    } else {
        lemma_count_true_bounds(removed, j - 1);
        lemma_keep_len(pile0, removed, j - 1);
    }
}

/// The count of set flags lies between 0 and the prefix length.
proof fn lemma_count_true_bounds(bs: Seq<bool>, j: int)
    ensures
        0 <= count_true(bs, j),
        j >= 0 ==> count_true(bs, j) <= j,
    decreases j,
{
    if j <= 0 {
    } else {
        lemma_count_true_bounds(bs, j - 1);
    }
}

/// The first-round election marks exactly the candidates at or over quota
/// among the ids scanned, and touches nothing else.
proof fn lemma_elect_from_char(piles: Seq<Seq<u32>>, status: Seq<Status>, quota: int, i: int)
    requires
        status.len() == slots(),
        0 <= i,
    ensures
        elect_from(piles, status, quota, i).len() == slots(),
        forall|j: int|
            0 <= j < slots() ==> elect_from(piles, status, quota, i)[j] == (if j >= i
                && piles[j].len() >= quota {
                Status::Elected
            } else {
                status[j]
            }),
    decreases slots() - i,
{
    if i >= slots() {
    } else {
        let status1 = if piles[i].len() >= quota {
            status.update(i, Status::Elected)
        } else {
            status
        };
        lemma_elect_from_char(piles, status1, quota, i + 1);
    }
}

/// The zero-vote sweep eliminates exactly the empty piles among the ids
/// scanned, and touches nothing else.
proof fn lemma_zero_elim_char(piles: Seq<Seq<u32>>, status: Seq<Status>, i: int)
    requires
        status.len() == slots(),
        0 <= i,
    ensures
        zero_elim_from(piles, status, i).len() == slots(),
        forall|j: int|
            0 <= j < slots() ==> zero_elim_from(piles, status, i)[j] == (if j >= i
                && piles[j].len() == 0 {
                Status::Eliminated
            } else {
                status[j]
            }),
    decreases slots() - i,
{
    if i >= slots() {
    } else {
        let status1 = if piles[i].len() == 0 {
            status.update(i, Status::Eliminated)
        } else {
            status
        };
        lemma_zero_elim_char(piles, status1, i + 1);
    }
}

/// The surplus-order scan only ever returns the running best or a real
/// over-quota candidate.
proof fn lemma_min_over_props(piles: Seq<Seq<u32>>, quota: int, taken: Seq<int>, i: int, best: int)
    requires
        best == 0 || (0 < best < slots() && piles[best].len() > quota),
    ensures
        ({
            let r = min_over_from(piles, quota, taken, i, best);
            r == 0 || (0 < r < slots() && piles[r].len() > quota)
        }),
    decreases slots() - i,
{
    if i < 1 || i >= slots() {
    } else {
        let better = piles[i].len() > quota && !taken.contains(i) && (best == 0 || piles[i].len()
            < piles[best].len());
        lemma_min_over_props(piles, quota, taken, i + 1, if better {
            i
        } else {
            best
        });
    }
}

/// Every entry of the surplus-transfer order is a real candidate whose pile
/// exceeds the quota.
proof fn lemma_order_entries(piles: Seq<Seq<u32>>, quota: int, k: nat)
    ensures
        forall|j: int|
            0 <= j < order_rec(piles, quota, k).len() ==> {
                let e = #[trigger] order_rec(piles, quota, k)[j];
                0 < e < slots() && piles[e].len() > quota
            },
    decreases k,
{
    if k == 0 {
    } else {
        lemma_order_entries(piles, quota, (k - 1) as nat);
        let prev = order_rec(piles, quota, (k - 1) as nat);
        lemma_min_over_props(piles, quota, prev, 1, 0);
    }
}


/// All continuing real candidates sit strictly below the quota. Established
/// by the first-round election and preserved by every later phase: a pile
/// reaching the quota elects its candidate on the spot.
pub open spec fn continuing_below_quota(
    piles: Seq<Seq<u32>>,
    status: Seq<Status>,
    quota: int,
) -> bool {
    forall|i: int|
        1 <= i < slots() && (#[trigger] status[i]) is Continuing ==> piles[i].len() < quota
}

/// One sampling visit moves at most one ballot: the pile total, the moved
/// flags and the moved counter advance together, statuses only ever move
/// from continuing to elected, and no continuing candidate reaches the
/// quota.
proof fn lemma_scan_visit_facts(
    ballots: Seq<Ballot>,
    quota: int,
    pile0: Seq<u32>,
    m: ScanModel,
    j: int,
    c: int,
)
    requires
        m.piles.len() == slots(),
        m.status.len() == slots(),
        m.removed.len() == pile0.len(),
        0 <= j < pile0.len(),
        0 < c < slots(),
        m.status[c] is Elected,
        continuing_below_quota(m.piles, m.status, quota),
    ensures
        ({
            let m1 = scan_visit(ballots, quota, pile0, m, j);
            let delta: int = if m.removed[j] {
                0
            } else {
                1
            };
            &&& m1.piles.len() == slots()
            &&& m1.status.len() == slots()
            &&& m1.removed.len() == pile0.len()
            &&& sum_sizes(m1.piles, slots()) == sum_sizes(m.piles, slots()) + delta
            &&& count_true(m1.removed, pile0.len() as int) == count_true(
                m.removed,
                pile0.len() as int,
            ) + delta
            &&& m1.moved == m.moved + delta
            &&& m1.piles[c] == m.piles[c]
            &&& forall|i: int|
                0 <= i < slots() ==> (#[trigger] m1.status[i] == m.status[i] || (
                m.status[i] is Continuing && m1.status[i] is Elected))
            &&& continuing_below_quota(m1.piles, m1.status, quota)
        }),
{
    if m.removed[j] {
    } else {
        let bi = pile0[j];
        let rec = next_pref_from(ballots[bi as int], m.status, 1);
        lemma_next_pref_cont(ballots[bi as int], m.status, 1);
        lemma_sum_update(m.piles, rec, m.piles[rec].push(bi), slots());
        lemma_count_true_update(m.removed, j, pile0.len() as int);
        assert(rec != c);
    }
}

/// One wrap of the stepped scan keeps the visit facts.
proof fn lemma_scan_row_facts(
    ballots: Seq<Ballot>,
    quota: int,
    pile0: Seq<u32>,
    m: ScanModel,
    j: int,
    step: int,
    surplus: int,
    c: int,
)
    requires
        step >= 1,
        j >= 0,
        m.piles.len() == slots(),
        m.status.len() == slots(),
        m.removed.len() == pile0.len(),
        0 < c < slots(),
        m.status[c] is Elected,
        continuing_below_quota(m.piles, m.status, quota),
    ensures
        ({
            let m1 = scan_row(ballots, quota, pile0, m, j, step, surplus);
            &&& m1.piles.len() == slots()
            &&& m1.status.len() == slots()
            &&& m1.removed.len() == pile0.len()
            &&& sum_sizes(m1.piles, slots()) - sum_sizes(m.piles, slots()) == m1.moved - m.moved
            &&& count_true(m1.removed, pile0.len() as int) - count_true(
                m.removed,
                pile0.len() as int,
            ) == m1.moved - m.moved
            &&& m1.piles[c] == m.piles[c]
            &&& m1.status[c] is Elected
            &&& forall|i: int|
                0 <= i < slots() ==> (#[trigger] m1.status[i] == m.status[i] || (
                m.status[i] is Continuing && m1.status[i] is Elected))
            &&& continuing_below_quota(m1.piles, m1.status, quota)
        }),
    decreases vstd::math::max(pile0.len() - j, 0),
{
    if j >= pile0.len() || m.moved >= surplus {
    } else {
        lemma_scan_visit_facts(ballots, quota, pile0, m, j, c);
        lemma_scan_row_facts(
            ballots,
            quota,
            pile0,
            scan_visit(ballots, quota, pile0, m, j),
            j + step,
            step,
            surplus,
            c,
        );
    }
}

/// The whole stepped scan keeps the visit facts.
proof fn lemma_scan_all_facts(
    ballots: Seq<Ballot>,
    quota: int,
    pile0: Seq<u32>,
    m: ScanModel,
    start: int,
    step: int,
    surplus: int,
    c: int,
)
    requires
        step >= 1,
        start >= 0,
        m.piles.len() == slots(),
        m.status.len() == slots(),
        m.removed.len() == pile0.len(),
        0 < c < slots(),
        m.status[c] is Elected,
        continuing_below_quota(m.piles, m.status, quota),
    ensures
        ({
            let m1 = scan_all(ballots, quota, pile0, m, start, step, surplus);
            &&& m1.piles.len() == slots()
            &&& m1.status.len() == slots()
            &&& m1.removed.len() == pile0.len()
            &&& sum_sizes(m1.piles, slots()) - sum_sizes(m.piles, slots()) == m1.moved - m.moved
            &&& count_true(m1.removed, pile0.len() as int) - count_true(
                m.removed,
                pile0.len() as int,
            ) == m1.moved - m.moved
            &&& m1.piles[c] == m.piles[c]
            &&& m1.status[c] is Elected
            &&& forall|i: int|
                0 <= i < slots() ==> (#[trigger] m1.status[i] == m.status[i] || (
                m.status[i] is Continuing && m1.status[i] is Elected))
            &&& continuing_below_quota(m1.piles, m1.status, quota)
        }),
    decreases pile0.len() - start,
{
    if start >= pile0.len() || m.moved >= surplus {
    } else {
        lemma_scan_row_facts(ballots, quota, pile0, m, start, step, surplus, c);
        lemma_scan_all_facts(
            ballots,
            quota,
            pile0,
            scan_row(ballots, quota, pile0, m, start, step, surplus),
            start + 1,
            step,
            surplus,
            c,
        );
    }
}

/// One surplus transfer conserves the ballots and the quota invariant, and
/// only promotes continuing candidates.
proof fn lemma_surplus_one_facts(
    ballots: Seq<Ballot>,
    quota: int,
    piles: Seq<Seq<u32>>,
    status: Seq<Status>,
    c: int,
)
    requires
        quota >= 0,
        piles.len() == slots(),
        status.len() == slots(),
        0 < c < slots(),
        piles[c].len() > quota ==> status[c] is Elected,
        continuing_below_quota(piles, status, quota),
    ensures
        ({
            let r = spec_surplus_one(ballots, quota, piles, status, c);
            &&& r.0.len() == slots()
            &&& r.1.len() == slots()
            &&& sum_sizes(r.0, slots()) == sum_sizes(piles, slots())
            &&& forall|i: int|
                0 <= i < slots() ==> (#[trigger] r.1[i] == status[i] || (
                status[i] is Continuing && r.1[i] is Elected))
            &&& continuing_below_quota(r.0, r.1, quota)
        }),
{
    let pile0 = piles[c];
    let len = pile0.len() as int;
    let surplus = len - quota;
    if surplus <= 0 {
    } else {
        let step = crate::model::spec_step(len, surplus);
        assert(step >= 1) by (nonlinear_arith)
            requires
                step == (2 * len + surplus) / (2 * surplus),
                1 <= surplus <= len,
        ;
        let m0 = ScanModel {
            piles: piles.update(c, Seq::<u32>::empty()),
            status: status,
            removed: Seq::new(pile0.len(), |i: int| false),
            moved: 0,
        };
        lemma_sum_update(piles, c, Seq::<u32>::empty(), slots());
        assert(count_true(m0.removed, len) == 0) by {
            lemma_count_true_zero(m0.removed, len);
        }
        lemma_scan_all_facts(ballots, quota, pile0, m0, step - 1, step, surplus, c);
        let m1 = scan_all(ballots, quota, pile0, m0, step - 1, step, surplus);
        lemma_count_true_bounds(m1.removed, len);
        lemma_keep_len(pile0, m1.removed, len);
        lemma_sum_update(m1.piles, c, keep_unremoved(pile0, m1.removed, len), slots());
    }
}

/// A sequence of unset flags has count zero.
proof fn lemma_count_true_zero(bs: Seq<bool>, j: int)
    requires
        j <= bs.len(),
        forall|k: int| 0 <= k < bs.len() ==> !bs[k],
    ensures
        count_true(bs, j) == 0,
    decreases j,
{
    if j <= 0 {
    } else {
        lemma_count_true_zero(bs, j - 1);
    }
}

/// The whole surplus phase conserves the ballots and the quota invariant.
proof fn lemma_surplus_seq_facts(
    ballots: Seq<Ballot>,
    quota: int,
    piles: Seq<Seq<u32>>,
    status: Seq<Status>,
    order: Seq<int>,
    k: int,
)
    requires
        quota >= 0,
        piles.len() == slots(),
        status.len() == slots(),
        forall|j: int|
            k <= j < order.len() ==> 0 < #[trigger] order[j] < slots() && status[order[j]] is Elected,
        continuing_below_quota(piles, status, quota),
    ensures
        ({
            let r = surplus_seq(ballots, quota, piles, status, order, k);
            &&& r.0.len() == slots()
            &&& r.1.len() == slots()
            &&& sum_sizes(r.0, slots()) == sum_sizes(piles, slots())
            &&& forall|i: int|
                0 <= i < slots() ==> (#[trigger] r.1[i] == status[i] || (
                status[i] is Continuing && r.1[i] is Elected))
            &&& continuing_below_quota(r.0, r.1, quota)
        }),
    decreases order.len() - k,
{
    if k < 0 || k >= order.len() {
    } else {
        let c = order[k];
        lemma_surplus_one_facts(ballots, quota, piles, status, c);
        let r1 = spec_surplus_one(ballots, quota, piles, status, c);
        lemma_surplus_seq_facts(ballots, quota, r1.0, r1.1, order, k + 1);
    }
}

/// Redistributing an eliminated pile conserves the total ballot count and
/// the quota invariant, and only promotes continuing candidates.
proof fn lemma_redistribute_facts(
    ballots: Seq<Ballot>,
    quota: int,
    piles: Seq<Seq<u32>>,
    status: Seq<Status>,
    pile: Seq<u32>,
    k: int,
)
    requires
        piles.len() == slots(),
        status.len() == slots(),
        0 <= k <= pile.len(),
        continuing_below_quota(piles, status, quota),
    ensures
        ({
            let r = redistribute(ballots, quota, piles, status, pile, k);
            &&& r.0.len() == slots()
            &&& sum_sizes(r.0, slots()) == sum_sizes(piles, slots()) + (pile.len() - k)
            &&& continuing_below_quota(r.0, r.1, quota)
        }),
    decreases pile.len() - k,
{
    if k < 0 || k >= pile.len() {
    } else {
        let bi = pile[k];
        let rec = next_pref_from(ballots[bi as int], status, 0);
        lemma_next_pref_cont(ballots[bi as int], status, 0);
        let piles1 = piles.update(rec, piles[rec].push(bi));
        let status1 = if rec != 0 && piles1[rec].len() >= quota {
            status.update(rec, Status::Elected)
        } else {
            status
        };
        lemma_sum_update(piles, rec, piles[rec].push(bi), slots());
        lemma_redistribute_facts(ballots, quota, piles1, status1, pile, k + 1);
    }
}


/// One elimination round conserves ballots, keeps the quota invariant, and
/// eliminates a candidate whose pile is strictly below the quota — the
/// quota-correctness law, round by round. When it eliminates, the field
/// shrinks by exactly one.
pub proof fn lemma_elim_round_facts(ballots: Seq<Ballot>, quota: int, m: TallyModel)
    requires
        m.piles.len() == slots(),
        m.status.len() == slots(),
        continuing_below_quota(m.piles, m.status, quota),
    ensures
        ({
            let totals1 = m.totals.push(pile_sizes(m.piles));
            let target = select_from(m.piles, m.status, totals1, 1, 0);
            let r = spec_elim_round(ballots, quota, m);
            &&& r.piles.len() == slots()
            &&& r.status.len() == slots()
            &&& sum_sizes(r.piles, slots()) == sum_sizes(m.piles, slots())
            &&& continuing_below_quota(r.piles, r.status, quota)
            &&& target != 0 ==> m.status[target] is Continuing && m.piles[target].len() < quota
            &&& target != 0 ==> count_nonelim(r.status, 0) == count_nonelim(m.status, 0) - 1
            &&& target == 0 ==> r.status == m.status && r.piles == m.piles
        }),
{
    let totals1 = m.totals.push(pile_sizes(m.piles));
    let target = select_from(m.piles, m.status, totals1, 1, 0);
    lemma_select_from_props(m.piles, m.status, totals1, 1, 0);
    if target != 0 {
        let status1 = m.status.update(target, Status::Eliminated);
        let pile = m.piles[target];
        let piles1 = m.piles.update(target, Seq::<u32>::empty());
        lemma_sum_update(m.piles, target, Seq::<u32>::empty(), slots());
        assert(continuing_below_quota(piles1, status1, quota));
        lemma_redistribute_facts(ballots, quota, piles1, status1, pile, 0);
        lemma_redistribute_status(ballots, quota, piles1, status1, pile, 0);
        let r = redistribute(ballots, quota, piles1, status1, pile, 0);
        lemma_count_elim_target(m.status, target, 0);
        lemma_count_same_elim(r.1, status1, 0);
    }
}

/// The elimination loop, run with enough fuel, reaches the stopping
/// condition, conserves ballots, and keeps the quota invariant. It never
/// thins the field below the seat count.
pub proof fn lemma_elim_loop_facts(
    ballots: Seq<Ballot>,
    quota: int,
    seats: int,
    m: TallyModel,
    fuel: nat,
)
    requires
        seats >= 0,
        m.piles.len() == slots(),
        m.status.len() == slots(),
        continuing_below_quota(m.piles, m.status, quota),
        fuel >= count_nonelim(m.status, 0),
    ensures
        ({
            let f = spec_elim_loop(ballots, quota, seats, m, fuel);
            &&& f.piles.len() == slots()
            &&& f.status.len() == slots()
            &&& sum_sizes(f.piles, slots()) == sum_sizes(m.piles, slots())
            &&& continuing_below_quota(f.piles, f.status, quota)
            &&& elim_done(f.status, seats)
            &&& count_nonelim(m.status, 0) >= seats ==> count_nonelim(f.status, 0) >= seats
        }),
    decreases fuel,
{
    lemma_count_bounds(m.status, 0);
    if fuel == 0 || elim_done(m.status, seats) {
        assert(fuel >= count_nonelim(m.status, 0));
        if fuel == 0 && !elim_done(m.status, seats) {
            assert(count_nonelim(m.status, 0) > seats >= 0);
            assert(false);
        }
    } else {
        lemma_elim_round_facts(ballots, quota, m);
        let totals1 = m.totals.push(pile_sizes(m.piles));
        let target = select_from(m.piles, m.status, totals1, 1, 0);
        if target == 0 {
            lemma_select_from_props(m.piles, m.status, totals1, 1, 0);
            lemma_count_bounds(m.status, 1);
            lemma_count_cont_exists(m.status, 1);
            assert(false);
        }
        let r = spec_elim_round(ballots, quota, m);
        lemma_elim_loop_facts(ballots, quota, seats, r, (fuel - 1) as nat);
    }
}

/// The state in which the elimination loop starts: ballots are conserved,
/// every continuing candidate is below quota, and every slot is present.
pub proof fn lemma_start_state_facts(seats: int, ballots: Seq<Ballot>)
    requires
        seats >= 0,
    ensures
        ({
            let quota = spec_droop_quota(ballots.len() as int, seats);
            let piles0 = assign_first_prefs(ballots, ballots.len() as int);
            let status1 = elect_from(piles0, init_status(), quota, 1);
            let r = surplus_seq(ballots, quota, piles0, status1, surplus_order(piles0, quota), 0);
            let status3 = zero_elim_from(r.0, r.1, 1);
            &&& r.0.len() == slots()
            &&& status3.len() == slots()
            &&& sum_sizes(r.0, slots()) == ballots.len()
            &&& continuing_below_quota(r.0, status3, quota)
            &&& count_nonelim(status3, 0) <= slots()
        }),
{
    let n = ballots.len() as int;
    let quota = spec_droop_quota(n, seats);
    assert(quota >= 0) by (nonlinear_arith)
        requires
            quota == (n + seats) / (seats + 1),
            n >= 0,
            seats >= 0,
    ;
    let piles0 = assign_first_prefs(ballots, n);
    lemma_assign_sum(ballots, n);
    let status1 = elect_from(piles0, init_status(), quota, 1);
    lemma_elect_from_char(piles0, init_status(), quota, 1);
    assert(continuing_below_quota(piles0, status1, quota));
    let order = surplus_order(piles0, quota);
    lemma_order_entries(piles0, quota, (slots() - 1) as nat);
    assert(forall|j: int|
        0 <= j < order.len() ==> 0 < #[trigger] order[j] < slots() && status1[order[j]] is Elected);
    lemma_surplus_seq_facts(ballots, quota, piles0, status1, order, 0);
    let r = surplus_seq(ballots, quota, piles0, status1, order, 0);
    let status3 = zero_elim_from(r.0, r.1, 1);
    lemma_zero_elim_char(r.0, r.1, 1);
    assert(continuing_below_quota(r.0, status3, quota));
    lemma_count_bounds(status3, 0);
}

/// Ballot conservation: at termination every ballot still rests on exactly
/// one pile — the pile sizes, the exhausted pile included, add up to the
/// ballot count. The same holds at the start of the elimination loop and,
/// by `lemma_elim_round_facts`, after every round in between.
pub proof fn lemma_ballot_conservation(seats: int, ballots: Seq<Ballot>)
    requires
        seats >= 0,
    ensures
        sum_sizes(spec_final_state(seats, ballots).piles, slots()) == ballots.len(),
{
    lemma_start_state_facts(seats, ballots);
    let quota = spec_droop_quota(ballots.len() as int, seats);
    let piles0 = assign_first_prefs(ballots, ballots.len() as int);
    let status1 = elect_from(piles0, init_status(), quota, 1);
    let r = surplus_seq(ballots, quota, piles0, status1, surplus_order(piles0, quota), 0);
    let status3 = zero_elim_from(r.0, r.1, 1);
    let m3 = TallyModel {
        piles: r.0,
        status: status3,
        totals: seq![pile_sizes(piles0)],
    };
    lemma_elim_loop_facts(ballots, quota, seats, m3, slots() as nat);
}

/// Quota correctness: when the elimination loop starts, every continuing
/// candidate is strictly below the quota, and `lemma_elim_round_facts`
/// carries that invariant through every round — so no candidate whose pile
/// ever reached the quota is eliminated by the loop.
pub proof fn lemma_quota_correctness(seats: int, ballots: Seq<Ballot>)
    requires
        seats >= 0,
    ensures
        ({
            let quota = spec_droop_quota(ballots.len() as int, seats);
            let f = spec_final_state(seats, ballots);
            continuing_below_quota(f.piles, f.status, quota)
        }),
{
    lemma_start_state_facts(seats, ballots);
    let quota = spec_droop_quota(ballots.len() as int, seats);
    let piles0 = assign_first_prefs(ballots, ballots.len() as int);
    let status1 = elect_from(piles0, init_status(), quota, 1);
    let r = surplus_seq(ballots, quota, piles0, status1, surplus_order(piles0, quota), 0);
    let status3 = zero_elim_from(r.0, r.1, 1);
    let m3 = TallyModel {
        piles: r.0,
        status: status3,
        totals: seq![pile_sizes(piles0)],
    };
    lemma_elim_loop_facts(ballots, quota, seats, m3, slots() as nat);
}

/// The winners are as many as the candidates never eliminated.
proof fn lemma_survivors_len(status: Seq<Status>, i: int)
    requires
        0 <= i <= slots(),
    ensures
        survivors_prefix(status, i).len() + count_nonelim(status, i) == count_nonelim(status, 0),
        elected_prefix(status, i).len() <= survivors_prefix(status, i).len(),
    decreases i,
{
    if i <= 0 {
    } else {
        lemma_survivors_len(status, i - 1);
    }
}

/// The winner-count law: the elimination loop stops exactly when the field
/// is down to the seat count, or when only elected candidates are left. So
/// the all-survivors winner set has exactly `seats` members whenever the
/// field started at or above the seat count and a continuing candidate
/// remained to eliminate; and the quota-elected winners are never more than
/// the survivors.
pub proof fn lemma_winner_count(seats: int, ballots: Seq<Ballot>)
    requires
        seats >= 0,
    ensures
        ({
            let f = spec_final_state(seats, ballots);
            &&& spec_tabulate(seats, ballots).len() == count_nonelim(f.status, 0)
            &&& spec_tabulate_elected(seats, ballots).len() <= spec_tabulate(seats, ballots).len()
            &&& count_nonelim(f.status, 0) <= seats || count_cont(f.status, 1) == 0
        }),
{
    lemma_start_state_facts(seats, ballots);
    let quota = spec_droop_quota(ballots.len() as int, seats);
    let piles0 = assign_first_prefs(ballots, ballots.len() as int);
    let status1 = elect_from(piles0, init_status(), quota, 1);
    let r = surplus_seq(ballots, quota, piles0, status1, surplus_order(piles0, quota), 0);
    let status3 = zero_elim_from(r.0, r.1, 1);
    let m3 = TallyModel {
        piles: r.0,
        status: status3,
        totals: seq![pile_sizes(piles0)],
    };
    lemma_elim_loop_facts(ballots, quota, seats, m3, slots() as nat);
    let f = spec_final_state(seats, ballots);
    lemma_survivors_len(f.status, slots());
}

/// Tabulation is a pure function of the seat count and the ballots: any two
/// results computed from the same inputs are the same winner set. Together
/// with the contract of `run` this makes re-tabulation — of the same ballot
/// sequence, however it was re-read or re-serialized — reproducible.
pub proof fn lemma_tabulate_deterministic(
    seats: int,
    ballots: Seq<Ballot>,
    r1: Seq<u8>,
    r2: Seq<u8>,
)
    requires
        r1 == spec_tabulate(seats, ballots),
        r2 == spec_tabulate(seats, ballots),
    ensures
        r1 == r2,
{
}


/// Every preference on every ballot names a candidate with id at most
/// `ncand` (0 being the exhausted sentinel).
pub open spec fn ballots_bounded(ballots: Seq<Ballot>, ncand: int) -> bool {
    forall|i: int, k: int|
        0 <= i < ballots.len() && 0 <= k < 16 ==> (#[trigger] ballots[i]@[k]) as int <= ncand
}

/// The next preference of a bounded ballot is bounded.
proof fn lemma_next_pref_bounded(b: Ballot, status: Seq<Status>, k: int, ncand: int)
    requires
        forall|j: int| 0 <= j < 16 ==> (#[trigger] b@[j]) as int <= ncand,
    ensures
        next_pref_from(b, status, k) <= ncand || next_pref_from(b, status, k) == 0,
    decreases 16 - k,
{
    if k < 0 || k >= 16 {
    } else if b@[k] == 0 {
    } else if status[b@[k] as int] is Continuing {
    } else {
        lemma_next_pref_bounded(b, status, k + 1, ncand);
    }
}

/// No pile above the highest ranked candidate id ever holds a ballot.
pub open spec fn piles_empty_above(piles: Seq<Seq<u32>>, ncand: int) -> bool {
    forall|c: int| ncand < c < slots() ==> (#[trigger] piles[c]).len() == 0
}

/// Every id above the highest ranked candidate, and the sentinel, stands
/// eliminated.
pub open spec fn eliminated_above(status: Seq<Status>, ncand: int) -> bool {
    &&& status[0] is Eliminated
    &&& forall|c: int| ncand < c < slots() ==> (#[trigger] status[c]) is Eliminated
}

/// First preferences of bounded ballots land at or below `ncand`.
proof fn lemma_assign_empty_above(ballots: Seq<Ballot>, n: int, ncand: int)
    requires
        0 <= n <= ballots.len(),
        0 <= ncand,
        ballots_bounded(ballots, ncand),
    ensures
        piles_empty_above(assign_first_prefs(ballots, n), ncand),
    decreases n,
{
    if n <= 0 {
        assert forall|c: int| ncand < c < slots() implies (#[trigger] assign_first_prefs(
            ballots,
            n,
        )[c]).len() == 0 by {
            assert(empty_piles()[c] =~= Seq::<u32>::empty());
        }
    } else {
        lemma_assign_empty_above(ballots, n - 1, ncand);
        lemma_assign_sum(ballots, n - 1);
        let prev = assign_first_prefs(ballots, n - 1);
        let c0 = ballots[n - 1]@[0] as int;
        assert(c0 <= ncand);
        assert forall|c: int| ncand < c < slots() implies (#[trigger] assign_first_prefs(
            ballots,
            n,
        )[c]).len() == 0 by {
            assert(assign_first_prefs(ballots, n)[c] == prev[c]);
        }
    }
}

/// One sampling visit never fills a pile above `ncand`.
proof fn lemma_scan_visit_empty_above(
    ballots: Seq<Ballot>,
    quota: int,
    pile0: Seq<u32>,
    m: ScanModel,
    j: int,
    ncand: int,
)
    requires
        m.piles.len() == slots(),
        0 <= j < pile0.len(),
        forall|k: int| 0 <= k < pile0.len() ==> (#[trigger] pile0[k]) < ballots.len(),
        ballots_bounded(ballots, ncand),
        0 <= ncand,
        piles_empty_above(m.piles, ncand),
    ensures
        piles_empty_above(scan_visit(ballots, quota, pile0, m, j).piles, ncand),
{
    if m.removed[j] {
    } else {
        let bi = pile0[j];
        lemma_next_pref_cont(ballots[bi as int], m.status, 1);
        lemma_next_pref_bounded(ballots[bi as int], m.status, 1, ncand);
    }
}

/// One wrap of the stepped scan never fills a pile above `ncand`.
proof fn lemma_scan_row_empty_above(
    ballots: Seq<Ballot>,
    quota: int,
    pile0: Seq<u32>,
    m: ScanModel,
    j: int,
    step: int,
    surplus: int,
    ncand: int,
)
    requires
        step >= 1,
        j >= 0,
        m.piles.len() == slots(),
        m.removed.len() == pile0.len(),
        forall|k: int| 0 <= k < pile0.len() ==> (#[trigger] pile0[k]) < ballots.len(),
        ballots_bounded(ballots, ncand),
        0 <= ncand,
        piles_empty_above(m.piles, ncand),
    ensures
        ({
            let m1 = scan_row(ballots, quota, pile0, m, j, step, surplus);
            piles_empty_above(m1.piles, ncand) && m1.piles.len() == slots() && m1.removed.len()
                == pile0.len()
        }),
    decreases vstd::math::max(pile0.len() - j, 0),
{
    if j >= pile0.len() || m.moved >= surplus {
    } else {
        lemma_scan_visit_empty_above(ballots, quota, pile0, m, j, ncand);
        let m1 = scan_visit(ballots, quota, pile0, m, j);
        assert(m1.piles.len() == slots() && m1.removed.len() == pile0.len()) by {
            lemma_next_pref_cont(ballots[pile0[j] as int], m.status, 1);
        }
        lemma_scan_row_empty_above(ballots, quota, pile0, m1, j + step, step, surplus, ncand);
    }
}

/// The whole stepped scan never fills a pile above `ncand`.
proof fn lemma_scan_all_empty_above(
    ballots: Seq<Ballot>,
    quota: int,
    pile0: Seq<u32>,
    m: ScanModel,
    start: int,
    step: int,
    surplus: int,
    ncand: int,
)
    requires
        step >= 1,
        start >= 0,
        m.piles.len() == slots(),
        m.removed.len() == pile0.len(),
        forall|k: int| 0 <= k < pile0.len() ==> (#[trigger] pile0[k]) < ballots.len(),
        ballots_bounded(ballots, ncand),
        0 <= ncand,
        piles_empty_above(m.piles, ncand),
    ensures
        ({
            let m1 = scan_all(ballots, quota, pile0, m, start, step, surplus);
            piles_empty_above(m1.piles, ncand) && m1.piles.len() == slots() && m1.removed.len()
                == pile0.len()
        }),
    decreases pile0.len() - start,
{
    if start >= pile0.len() || m.moved >= surplus {
    } else {
        lemma_scan_row_empty_above(ballots, quota, pile0, m, start, step, surplus, ncand);
        lemma_scan_all_empty_above(
            ballots,
            quota,
            pile0,
            scan_row(ballots, quota, pile0, m, start, step, surplus),
            start + 1,
            step,
            surplus,
            ncand,
        );
    }
}

/// One surplus transfer never fills a pile above `ncand`.
proof fn lemma_surplus_one_empty_above(
    ballots: Seq<Ballot>,
    quota: int,
    piles: Seq<Seq<u32>>,
    status: Seq<Status>,
    c: int,
    ncand: int,
)
    requires
        quota >= 0,
        piles.len() == slots(),
        0 < c < slots(),
        crate::model::piles_wf(piles, ballots.len() as int),
        ballots_bounded(ballots, ncand),
        0 <= ncand,
        piles_empty_above(piles, ncand),
    ensures
        ({
            let r = spec_surplus_one(ballots, quota, piles, status, c);
            piles_empty_above(r.0, ncand) && r.0.len() == slots()
        }),
{
    let pile0 = piles[c];
    let len = pile0.len() as int;
    let surplus = len - quota;
    if surplus <= 0 {
    } else {
        // An over-quota pile is not empty, so its owner is a ranked id.
        assert(c <= ncand);
        let step = crate::model::spec_step(len, surplus);
        assert(step >= 1) by (nonlinear_arith)
            requires
                step == (2 * len + surplus) / (2 * surplus),
                1 <= surplus <= len,
        ;
        let m0 = ScanModel {
            piles: piles.update(c, Seq::<u32>::empty()),
            status: status,
            removed: Seq::new(pile0.len(), |i: int| false),
            moved: 0,
        };
        lemma_scan_all_empty_above(ballots, quota, pile0, m0, step - 1, step, surplus, ncand);
    }
}

/// The whole surplus phase never fills a pile above `ncand`.
proof fn lemma_surplus_seq_empty_above(
    ballots: Seq<Ballot>,
    quota: int,
    piles: Seq<Seq<u32>>,
    status: Seq<Status>,
    order: Seq<int>,
    k: int,
    ncand: int,
)
    requires
        quota >= 0,
        piles.len() == slots(),
        crate::model::piles_wf(piles, ballots.len() as int),
        forall|j: int| k <= j < order.len() ==> 0 < #[trigger] order[j] < slots(),
        ballots_bounded(ballots, ncand),
        0 <= ncand,
        piles_empty_above(piles, ncand),
    ensures
        ({
            let r = surplus_seq(ballots, quota, piles, status, order, k);
            piles_empty_above(r.0, ncand) && r.0.len() == slots()
        }),
    decreases order.len() - k,
{
    if k < 0 || k >= order.len() {
    } else {
        let c = order[k];
        lemma_surplus_one_empty_above(ballots, quota, piles, status, c, ncand);
        let r1 = spec_surplus_one(ballots, quota, piles, status, c);
        lemma_surplus_one_wf(ballots, quota, piles, status, c);
        lemma_surplus_seq_empty_above(ballots, quota, r1.0, r1.1, order, k + 1, ncand);
    }
}

/// One sampling visit keeps the pile entries valid ballot indices.
proof fn lemma_scan_wf(
    ballots: Seq<Ballot>,
    quota: int,
    pile0: Seq<u32>,
    m: ScanModel,
    start: int,
    j: int,
    step: int,
    surplus: int,
    row: bool,
)
    requires
        step >= 1,
        start >= 0,
        j >= 0,
        m.removed.len() == pile0.len(),
        forall|k: int| 0 <= k < pile0.len() ==> (#[trigger] pile0[k]) < ballots.len(),
        crate::model::piles_wf(m.piles, ballots.len() as int),
    ensures
        row ==> crate::model::piles_wf(
            scan_row(ballots, quota, pile0, m, j, step, surplus).piles,
            ballots.len() as int,
        ),
        !row ==> crate::model::piles_wf(
            scan_all(ballots, quota, pile0, m, start, step, surplus).piles,
            ballots.len() as int,
        ),
    decreases vstd::math::max(pile0.len() - (if row {
        j
    } else {
        start
    }), 0), (if row {
        0int
    } else {
        1int
    }),
{
    if row {
        if j >= pile0.len() || m.moved >= surplus {
        } else {
            let m1 = scan_visit(ballots, quota, pile0, m, j);
            assert(crate::model::piles_wf(m1.piles, ballots.len() as int)) by {
                lemma_next_pref_cont(ballots[pile0[j] as int], m.status, 1);
            }
            lemma_scan_wf(ballots, quota, pile0, m1, start, j + step, step, surplus, true);
        }
    } else {
        if start >= pile0.len() || m.moved >= surplus {
        } else {
            lemma_scan_wf(ballots, quota, pile0, m, start, start, step, surplus, true);
            let m1 = scan_row(ballots, quota, pile0, m, start, step, surplus);
            assert(m1.removed.len() == pile0.len()) by {
                lemma_scan_row_len(ballots, quota, pile0, m, start, step, surplus);
            }
            lemma_scan_wf(ballots, quota, pile0, m1, start + 1, j, step, surplus, false);
        }
    }
}

/// The scan keeps the pile count and the flag count.
proof fn lemma_scan_row_len(
    ballots: Seq<Ballot>,
    quota: int,
    pile0: Seq<u32>,
    m: ScanModel,
    j: int,
    step: int,
    surplus: int,
)
    requires
        step >= 1,
        j >= 0,
        m.removed.len() == pile0.len(),
        m.piles.len() == slots(),
        forall|k: int| 0 <= k < pile0.len() ==> (#[trigger] pile0[k]) < ballots.len(),
    ensures
        ({
            let m1 = scan_row(ballots, quota, pile0, m, j, step, surplus);
            m1.removed.len() == m.removed.len() && m1.piles.len() == m.piles.len()
        }),
    decreases vstd::math::max(pile0.len() - j, 0),
{
    if j >= pile0.len() || m.moved >= surplus {
    } else {
        let m1 = scan_visit(ballots, quota, pile0, m, j);
        assert(m1.piles.len() == slots() && m1.removed.len() == pile0.len()) by {
            lemma_next_pref_cont(ballots[pile0[j] as int], m.status, 1);
        }
        lemma_scan_row_len(ballots, quota, pile0, m1, j + step, step, surplus);
    }
}

/// One surplus transfer keeps the pile entries valid ballot indices.
proof fn lemma_surplus_one_wf(
    ballots: Seq<Ballot>,
    quota: int,
    piles: Seq<Seq<u32>>,
    status: Seq<Status>,
    c: int,
)
    requires
        quota >= 0,
        piles.len() == slots(),
        0 < c < slots(),
        crate::model::piles_wf(piles, ballots.len() as int),
    ensures
        ({
            let r = spec_surplus_one(ballots, quota, piles, status, c);
            crate::model::piles_wf(r.0, ballots.len() as int) && r.0.len() == slots()
        }),
{
    let pile0 = piles[c];
    let len = pile0.len() as int;
    let surplus = len - quota;
    if surplus <= 0 {
    } else {
        let step = crate::model::spec_step(len, surplus);
        assert(step >= 1) by (nonlinear_arith)
            requires
                step == (2 * len + surplus) / (2 * surplus),
                1 <= surplus <= len,
        ;
        let m0 = ScanModel {
            piles: piles.update(c, Seq::<u32>::empty()),
            status: status,
            removed: Seq::new(pile0.len(), |i: int| false),
            moved: 0,
        };
        lemma_scan_wf(ballots, quota, pile0, m0, step - 1, 0, step, surplus, false);
        let m1 = scan_all(ballots, quota, pile0, m0, step - 1, step, surplus);
        lemma_keep_entries(pile0, m1.removed, len);
    }
}

/// What survives a scan came from the snapshot.
proof fn lemma_keep_entries(pile0: Seq<u32>, removed: Seq<bool>, j: int)
    requires
        j <= pile0.len(),
    ensures
        forall|k: int|
            0 <= k < keep_unremoved(pile0, removed, j).len() ==> pile0.contains(
                #[trigger] keep_unremoved(pile0, removed, j)[k],
            ),
    decreases j,
{
    if j <= 0 {
    } else {
        lemma_keep_entries(pile0, removed, j - 1);
        let cur = keep_unremoved(pile0, removed, j);
        let prev = keep_unremoved(pile0, removed, j - 1);
        if !removed[j - 1] {
            assert forall|k: int| 0 <= k < cur.len() implies pile0.contains(cur[k]) by {
                if k < prev.len() {
                    assert(cur[k] == prev[k]);
                } else {
                    assert(cur[k] == pile0[j - 1]);
                    assert(pile0.contains(pile0[j - 1]));
                }
            }
        }
    }
}


/// First preferences of real ballots are valid ballot indices.
proof fn lemma_assign_wf(ballots: Seq<Ballot>, n: int)
    requires
        0 <= n <= ballots.len(),
        ballots.len() < 0x1_0000_0000,
    ensures
        crate::model::piles_wf(assign_first_prefs(ballots, n), ballots.len() as int),
    decreases n,
{
    lemma_assign_sum(ballots, n);
    if n <= 0 {
        assert forall|c: int, j: int|
            0 <= c < slots() && 0 <= j < assign_first_prefs(ballots, n)[c].len() implies
            assign_first_prefs(ballots, n)[c][j] < ballots.len() by {
            assert(empty_piles()[c] =~= Seq::<u32>::empty());
        }
    } else {
        lemma_assign_wf(ballots, n - 1);
        lemma_assign_sum(ballots, n - 1);
    }
}

/// Redistribution keeps the pile count.
proof fn lemma_redistribute_piles_len(
    ballots: Seq<Ballot>,
    quota: int,
    piles: Seq<Seq<u32>>,
    status: Seq<Status>,
    pile: Seq<u32>,
    k: int,
)
    requires
        piles.len() == slots(),
        status.len() == slots(),
    ensures
        redistribute(ballots, quota, piles, status, pile, k).0.len() == slots(),
    decreases pile.len() - k,
{
    if k < 0 || k >= pile.len() {
    } else {
        let bi = pile[k];
        let rec = next_pref_from(ballots[bi as int], status, 0);
        lemma_next_pref_cont(ballots[bi as int], status, 0);
        let piles1 = piles.update(rec, piles[rec].push(bi));
        let status1 = if rec != 0 && piles1[rec].len() >= quota {
            status.update(rec, Status::Elected)
        } else {
            status
        };
        lemma_redistribute_piles_len(ballots, quota, piles1, status1, pile, k + 1);
    }
}

/// One elimination round never revives an id: the sentinel and every id
/// above `ncand` stay eliminated.
proof fn lemma_elim_round_elim_above(ballots: Seq<Ballot>, quota: int, m: TallyModel, ncand: int)
    requires
        m.piles.len() == slots(),
        m.status.len() == slots(),
        eliminated_above(m.status, ncand),
        0 <= ncand,
    ensures
        ({
            let r = spec_elim_round(ballots, quota, m);
            eliminated_above(r.status, ncand) && r.status.len() == slots() && r.piles.len()
                == slots()
        }),
{
    let totals1 = m.totals.push(pile_sizes(m.piles));
    let target = select_from(m.piles, m.status, totals1, 1, 0);
    lemma_select_from_props(m.piles, m.status, totals1, 1, 0);
    if target != 0 {
        let status1 = m.status.update(target, Status::Eliminated);
        let pile = m.piles[target];
        let piles1 = m.piles.update(target, Seq::<u32>::empty());
        lemma_redistribute_status(ballots, quota, piles1, status1, pile, 0);
        lemma_redistribute_piles_len(ballots, quota, piles1, status1, pile, 0);
    }
}

/// The elimination loop never revives an id.
proof fn lemma_elim_loop_elim_above(
    ballots: Seq<Ballot>,
    quota: int,
    seats: int,
    m: TallyModel,
    fuel: nat,
    ncand: int,
)
    requires
        m.piles.len() == slots(),
        m.status.len() == slots(),
        eliminated_above(m.status, ncand),
        0 <= ncand,
    ensures
        ({
            let f = spec_elim_loop(ballots, quota, seats, m, fuel);
            eliminated_above(f.status, ncand) && f.status.len() == slots()
        }),
    decreases fuel,
{
    if fuel == 0 || elim_done(m.status, seats) {
    } else {
        lemma_elim_round_elim_above(ballots, quota, m, ncand);
        lemma_elim_loop_elim_above(
            ballots,
            quota,
            seats,
            spec_elim_round(ballots, quota, m),
            (fuel - 1) as nat,
            ncand,
        );
    }
}

/// The survivor list holds only not-eliminated ids, strictly ascending.
proof fn lemma_survivors_entries(status: Seq<Status>, i: int)
    requires
        0 <= i <= slots(),
    ensures
        forall|k: int|
            0 <= k < survivors_prefix(status, i).len() ==> {
                let e = #[trigger] survivors_prefix(status, i)[k];
                &&& 0 <= (e as int) < i
                &&& !(status[e as int] is Eliminated)
            },
        forall|k1: int, k2: int|
            0 <= k1 < k2 < survivors_prefix(status, i).len() ==> survivors_prefix(status, i)[k1]
                < survivors_prefix(status, i)[k2],
    decreases i,
{
    if i <= 0 {
    } else {
        lemma_survivors_entries(status, i - 1);
        let prev = survivors_prefix(status, i - 1);
        let cur = survivors_prefix(status, i);
        if !(status[i - 1] is Eliminated) {
            assert(forall|k: int| 0 <= k < prev.len() ==> cur[k] == prev[k]);
            assert(cur[prev.len() as int] == (i - 1) as u8);
        }
    }
}

/// The elected list holds only elected ids, strictly ascending.
proof fn lemma_elected_entries(status: Seq<Status>, i: int)
    requires
        0 <= i <= slots(),
    ensures
        forall|k: int|
            0 <= k < elected_prefix(status, i).len() ==> {
                let e = #[trigger] elected_prefix(status, i)[k];
                &&& 0 <= (e as int) < i
                &&& status[e as int] is Elected
            },
        forall|k1: int, k2: int|
            0 <= k1 < k2 < elected_prefix(status, i).len() ==> elected_prefix(status, i)[k1]
                < elected_prefix(status, i)[k2],
    decreases i,
{
    if i <= 0 {
    } else {
        lemma_elected_entries(status, i - 1);
        let prev = elected_prefix(status, i - 1);
        let cur = elected_prefix(status, i);
        if status[i - 1] is Elected {
            assert(forall|k: int| 0 <= k < prev.len() ==> cur[k] == prev[k]);
            assert(cur[prev.len() as int] == (i - 1) as u8);
        }
    }
}

/// Every winner is a real ranked candidate: when every preference on every
/// ballot is at most `ncand`, the winner ids — under either winner rule —
/// are strictly ascending, never the sentinel, and never above `ncand`, so
/// they index a name table of `ncand + 1` entries.
pub proof fn lemma_winners_are_ranked(seats: int, ballots: Seq<Ballot>, ncand: int)
    requires
        seats >= 0,
        0 <= ncand < slots(),
        ballots.len() < 0x1_0000_0000,
        ballots_bounded(ballots, ncand),
    ensures
        ({
            let w = spec_tabulate(seats, ballots);
            let e = spec_tabulate_elected(seats, ballots);
            &&& forall|k: int| 0 <= k < w.len() ==> 1 <= (#[trigger] w[k]) as int <= ncand
            &&& forall|k1: int, k2: int| 0 <= k1 < k2 < w.len() ==> w[k1] < w[k2]
            &&& forall|k: int| 0 <= k < e.len() ==> 1 <= (#[trigger] e[k]) as int <= ncand
            &&& forall|k1: int, k2: int| 0 <= k1 < k2 < e.len() ==> e[k1] < e[k2]
        }),
{
    let n = ballots.len() as int;
    let quota = spec_droop_quota(n, seats);
    assert(quota >= 0) by (nonlinear_arith)
        requires
            quota == (n + seats) / (seats + 1),
            n >= 0,
            seats >= 0,
    ;
    let piles0 = assign_first_prefs(ballots, n);
    lemma_assign_sum(ballots, n);
    lemma_assign_wf(ballots, n);
    lemma_assign_empty_above(ballots, n, ncand);
    let status1 = elect_from(piles0, init_status(), quota, 1);
    lemma_elect_from_char(piles0, init_status(), quota, 1);
    assert(continuing_below_quota(piles0, status1, quota));
    let order = surplus_order(piles0, quota);
    lemma_order_entries(piles0, quota, (slots() - 1) as nat);
    lemma_surplus_seq_facts(ballots, quota, piles0, status1, order, 0);
    lemma_surplus_seq_empty_above(ballots, quota, piles0, status1, order, 0, ncand);
    let r = surplus_seq(ballots, quota, piles0, status1, order, 0);
    let status3 = zero_elim_from(r.0, r.1, 1);
    lemma_zero_elim_char(r.0, r.1, 1);
    assert(status1[0] is Eliminated);
    assert(r.1[0] is Eliminated);
    assert(eliminated_above(status3, ncand));
    let m3 = TallyModel { piles: r.0, status: status3, totals: seq![pile_sizes(piles0)] };
    lemma_elim_loop_elim_above(ballots, quota, seats, m3, slots() as nat, ncand);
    let f = spec_final_state(seats, ballots);
    lemma_survivors_entries(f.status, slots());
    lemma_elected_entries(f.status, slots());
    assert forall|k: int| 0 <= k < spec_tabulate(seats, ballots).len() implies 1 <= (
    #[trigger] spec_tabulate(seats, ballots)[k]) as int <= ncand by {
        let e = spec_tabulate(seats, ballots)[k];
        assert(!(f.status[e as int] is Eliminated));
    }
    assert forall|k: int| 0 <= k < spec_tabulate_elected(seats, ballots).len() implies 1 <= (
    #[trigger] spec_tabulate_elected(seats, ballots)[k]) as int <= ncand by {
        let e = spec_tabulate_elected(seats, ballots)[k];
        assert(f.status[e as int] is Elected);
    }
}


/// Occurrences of the ballot index `x` among the first `j` entries of one
/// pile.
pub open spec fn count_in(s: Seq<u32>, j: int, x: u32) -> int
    decreases j,
{
    if j <= 0 {
        0
    } else {
        count_in(s, j - 1, x) + if s[j - 1] == x {
            1int
        } else {
            0int
        }
    }
}

/// Occurrences of the ballot index `x` across the piles `[0, c)`.
pub open spec fn occ(piles: Seq<Seq<u32>>, c: int, x: u32) -> int
    decreases c,
{
    if c <= 0 {
        0
    } else {
        occ(piles, c - 1, x) + count_in(piles[c - 1], piles[c - 1].len() as int, x)
    }
}

/// Occurrences of `x` among the first `j` snapshot positions not yet moved.
pub open spec fn count_unmoved(pile0: Seq<u32>, removed: Seq<bool>, j: int, x: u32) -> int
    decreases j,
{
    if j <= 0 {
        0
    } else {
        count_unmoved(pile0, removed, j - 1, x) + if !removed[j - 1] && pile0[j - 1] == x {
            1int
        } else {
            0int
        }
    }
}

/// Equal prefixes count equally.
proof fn lemma_count_in_prefix(s1: Seq<u32>, s2: Seq<u32>, j: int, x: u32)
    requires
        forall|k: int| 0 <= k < j ==> s1[k] == s2[k],
    ensures
        count_in(s1, j, x) == count_in(s2, j, x),
    decreases j,
{
    if j > 0 {
        lemma_count_in_prefix(s1, s2, j - 1, x);
    }
}

/// Appending one entry raises its count by one.
proof fn lemma_count_in_push(s: Seq<u32>, y: u32, x: u32)
    ensures
        count_in(s.push(y), s.len() as int + 1, x) == count_in(s, s.len() as int, x) + if y == x {
            1int
        } else {
            0int
        },
{
    lemma_count_in_prefix(s.push(y), s, s.len() as int, x);
}

/// Updating one pile moves the total occurrences by the difference there.
proof fn lemma_occ_update(piles: Seq<Seq<u32>>, i: int, v: Seq<u32>, c: int, x: u32)
    requires
        0 <= i < piles.len(),
        c <= piles.len(),
    ensures
        c <= i ==> occ(piles.update(i, v), c, x) == occ(piles, c, x),
        i < c ==> occ(piles.update(i, v), c, x) == occ(piles, c, x) - count_in(
            piles[i],
            piles[i].len() as int,
            x,
        ) + count_in(v, v.len() as int, x),
    decreases c,
{
    if c <= 0 {
    } else {
        lemma_occ_update(piles, i, v, c - 1, x);
    }
}

/// Empty piles hold nothing.
proof fn lemma_occ_empty(c: int, x: u32)
    requires
        c <= slots(),
    ensures
        occ(empty_piles(), c, x) == 0,
    decreases c,
{
    if c > 0 {
        lemma_occ_empty(c - 1, x);
    }
}

/// After the first `n` ballots are placed, index `x` rests on exactly one
/// pile when `x < n` and on none otherwise.
proof fn lemma_assign_occ(ballots: Seq<Ballot>, n: int, x: u32)
    requires
        0 <= n <= ballots.len(),
        ballots.len() < 0x1_0000_0000,
    ensures
        occ(assign_first_prefs(ballots, n), slots(), x) == if (x as int) < n {
            1int
        } else {
            0int
        },
    decreases n,
{
    lemma_assign_sum(ballots, n);
    if n <= 0 {
        lemma_occ_empty(slots(), x);
    } else {
        lemma_assign_occ(ballots, n - 1, x);
        lemma_assign_sum(ballots, n - 1);
        let prev = assign_first_prefs(ballots, n - 1);
        let c0 = ballots[n - 1]@[0] as int;
        lemma_occ_update(prev, c0, prev[c0].push((n - 1) as u32), slots(), x);
        lemma_count_in_push(prev[c0], (n - 1) as u32, x);
    }
}

/// Marking one unmoved snapshot position moved lowers the unmoved count of
/// its index by one.
proof fn lemma_count_unmoved_update(pile0: Seq<u32>, removed: Seq<bool>, j: int, n: int, x: u32)
    requires
        0 <= j < removed.len(),
        !removed[j],
        n <= removed.len(),
    ensures
        j < n ==> count_unmoved(pile0, removed.update(j, true), n, x) == count_unmoved(
            pile0,
            removed,
            n,
            x,
        ) - (if pile0[j] == x {
            1int
        } else {
            0int
        }),
        j >= n ==> count_unmoved(pile0, removed.update(j, true), n, x) == count_unmoved(
            pile0,
            removed,
            n,
            x,
        ),
    decreases n,
{
    if n > 0 {
        lemma_count_unmoved_update(pile0, removed, j, n - 1, x);
    }
}

/// Before any move, the unmoved count is the snapshot count.
proof fn lemma_count_unmoved_all_false(pile0: Seq<u32>, removed: Seq<bool>, j: int, x: u32)
    requires
        j <= removed.len(),
        forall|k: int| 0 <= k < removed.len() ==> !removed[k],
    ensures
        count_unmoved(pile0, removed, j, x) == count_in(pile0, j, x),
    decreases j,
{
    if j > 0 {
        lemma_count_unmoved_all_false(pile0, removed, j - 1, x);
    }
}

/// What survives a scan counts exactly the unmoved snapshot positions.
proof fn lemma_keep_count(pile0: Seq<u32>, removed: Seq<bool>, j: int, x: u32)
    requires
        j <= pile0.len(),
        j <= removed.len(),
    ensures
        count_in(
            keep_unremoved(pile0, removed, j),
            keep_unremoved(pile0, removed, j).len() as int,
            x,
        ) == count_unmoved(pile0, removed, j, x),
    decreases j,
{
    if j > 0 {
        lemma_keep_count(pile0, removed, j - 1, x);
        if !removed[j - 1] {
            lemma_count_in_push(keep_unremoved(pile0, removed, j - 1), pile0[j - 1], x);
        }
    }
}

/// One sampling visit moves one occurrence from the snapshot to the piles.
proof fn lemma_scan_visit_occ(
    ballots: Seq<Ballot>,
    quota: int,
    pile0: Seq<u32>,
    m: ScanModel,
    j: int,
    x: u32,
)
    requires
        m.piles.len() == slots(),
        m.removed.len() == pile0.len(),
        0 <= j < pile0.len(),
    ensures
        ({
            let m1 = scan_visit(ballots, quota, pile0, m, j);
            occ(m1.piles, slots(), x) + count_unmoved(pile0, m1.removed, pile0.len() as int, x)
                == occ(m.piles, slots(), x) + count_unmoved(
                pile0,
                m.removed,
                pile0.len() as int,
                x,
            )
        }),
{
    if m.removed[j] {
    } else {
        let bi = pile0[j];
        let rec = next_pref_from(ballots[bi as int], m.status, 1);
        lemma_next_pref_cont(ballots[bi as int], m.status, 1);
        lemma_occ_update(m.piles, rec, m.piles[rec].push(bi), slots(), x);
        lemma_count_in_push(m.piles[rec], bi, x);
        lemma_count_unmoved_update(pile0, m.removed, j, pile0.len() as int, x);
    }
}

/// One wrap of the stepped scan conserves occurrences.
proof fn lemma_scan_row_occ(
    ballots: Seq<Ballot>,
    quota: int,
    pile0: Seq<u32>,
    m: ScanModel,
    j: int,
    step: int,
    surplus: int,
    x: u32,
)
    requires
        step >= 1,
        j >= 0,
        m.piles.len() == slots(),
        m.removed.len() == pile0.len(),
        forall|k: int| 0 <= k < pile0.len() ==> (#[trigger] pile0[k]) < ballots.len(),
    ensures
        ({
            let m1 = scan_row(ballots, quota, pile0, m, j, step, surplus);
            occ(m1.piles, slots(), x) + count_unmoved(pile0, m1.removed, pile0.len() as int, x)
                == occ(m.piles, slots(), x) + count_unmoved(
                pile0,
                m.removed,
                pile0.len() as int,
                x,
            )
        }),
    decreases vstd::math::max(pile0.len() - j, 0),
{
    if j >= pile0.len() || m.moved >= surplus {
    } else {
        lemma_scan_visit_occ(ballots, quota, pile0, m, j, x);
        let m1 = scan_visit(ballots, quota, pile0, m, j);
        assert(m1.piles.len() == slots() && m1.removed.len() == pile0.len()) by {
            lemma_next_pref_cont(ballots[pile0[j] as int], m.status, 1);
        }
        lemma_scan_row_occ(ballots, quota, pile0, m1, j + step, step, surplus, x);
    }
}

/// The whole stepped scan conserves occurrences.
proof fn lemma_scan_all_occ(
    ballots: Seq<Ballot>,
    quota: int,
    pile0: Seq<u32>,
    m: ScanModel,
    start: int,
    step: int,
    surplus: int,
    x: u32,
)
    requires
        step >= 1,
        start >= 0,
        m.piles.len() == slots(),
        m.removed.len() == pile0.len(),
        forall|k: int| 0 <= k < pile0.len() ==> (#[trigger] pile0[k]) < ballots.len(),
    ensures
        ({
            let m1 = scan_all(ballots, quota, pile0, m, start, step, surplus);
            occ(m1.piles, slots(), x) + count_unmoved(pile0, m1.removed, pile0.len() as int, x)
                == occ(m.piles, slots(), x) + count_unmoved(
                pile0,
                m.removed,
                pile0.len() as int,
                x,
            )
        }),
    decreases pile0.len() - start,
{
    if start >= pile0.len() || m.moved >= surplus {
    } else {
        lemma_scan_row_occ(ballots, quota, pile0, m, start, step, surplus, x);
        let m1 = scan_row(ballots, quota, pile0, m, start, step, surplus);
        assert(m1.piles.len() == slots() && m1.removed.len() == pile0.len()) by {
            lemma_scan_row_len(ballots, quota, pile0, m, start, step, surplus);
        }
        lemma_scan_all_occ(ballots, quota, pile0, m1, start + 1, step, surplus, x);
    }
}

/// One surplus transfer conserves occurrences.
proof fn lemma_surplus_one_occ(
    ballots: Seq<Ballot>,
    quota: int,
    piles: Seq<Seq<u32>>,
    status: Seq<Status>,
    c: int,
    x: u32,
)
    requires
        quota >= 0,
        piles.len() == slots(),
        status.len() == slots(),
        0 < c < slots(),
        crate::model::piles_wf(piles, ballots.len() as int),
        piles[c].len() > quota ==> status[c] is Elected,
        continuing_below_quota(piles, status, quota),
    ensures
        occ(spec_surplus_one(ballots, quota, piles, status, c).0, slots(), x) == occ(
            piles,
            slots(),
            x,
        ),
{
    let pile0 = piles[c];
    let len = pile0.len() as int;
    let surplus = len - quota;
    if surplus <= 0 {
    } else {
        let step = crate::model::spec_step(len, surplus);
        assert(step >= 1) by (nonlinear_arith)
            requires
                step == (2 * len + surplus) / (2 * surplus),
                1 <= surplus <= len,
        ;
        let m0 = ScanModel {
            piles: piles.update(c, Seq::<u32>::empty()),
            status: status,
            removed: Seq::new(pile0.len(), |i: int| false),
            moved: 0,
        };
        lemma_occ_update(piles, c, Seq::<u32>::empty(), slots(), x);
        lemma_count_unmoved_all_false(pile0, m0.removed, len, x);
        lemma_scan_all_occ(ballots, quota, pile0, m0, step - 1, step, surplus, x);
        lemma_scan_all_facts(ballots, quota, pile0, m0, step - 1, step, surplus, c);
        let m1 = scan_all(ballots, quota, pile0, m0, step - 1, step, surplus);
        lemma_keep_count(pile0, m1.removed, len, x);
        lemma_occ_update(m1.piles, c, keep_unremoved(pile0, m1.removed, len), slots(), x);
    }
}

/// The whole surplus phase conserves occurrences.
proof fn lemma_surplus_seq_occ(
    ballots: Seq<Ballot>,
    quota: int,
    piles: Seq<Seq<u32>>,
    status: Seq<Status>,
    order: Seq<int>,
    k: int,
    x: u32,
)
    requires
        quota >= 0,
        piles.len() == slots(),
        status.len() == slots(),
        crate::model::piles_wf(piles, ballots.len() as int),
        forall|j: int|
            k <= j < order.len() ==> 0 < #[trigger] order[j] < slots() && status[order[j]] is Elected,
        continuing_below_quota(piles, status, quota),
    ensures
        occ(surplus_seq(ballots, quota, piles, status, order, k).0, slots(), x) == occ(
            piles,
            slots(),
            x,
        ),
    decreases order.len() - k,
{
    if k < 0 || k >= order.len() {
    } else {
        let c = order[k];
        lemma_surplus_one_occ(ballots, quota, piles, status, c, x);
        lemma_surplus_one_facts(ballots, quota, piles, status, c);
        lemma_surplus_one_wf(ballots, quota, piles, status, c);
        let r1 = spec_surplus_one(ballots, quota, piles, status, c);
        lemma_surplus_seq_occ(ballots, quota, r1.0, r1.1, order, k + 1, x);
    }
}

/// Redistribution moves the remaining snapshot occurrences into the piles.
proof fn lemma_redistribute_occ(
    ballots: Seq<Ballot>,
    quota: int,
    piles: Seq<Seq<u32>>,
    status: Seq<Status>,
    pile: Seq<u32>,
    k: int,
    x: u32,
)
    requires
        piles.len() == slots(),
        status.len() == slots(),
        0 <= k <= pile.len(),
    ensures
        occ(redistribute(ballots, quota, piles, status, pile, k).0, slots(), x) == occ(
            piles,
            slots(),
            x,
        ) + count_in(pile, pile.len() as int, x) - count_in(pile, k, x),
    decreases pile.len() - k,
{
    if k >= pile.len() {
        lemma_count_in_prefix(pile, pile, k, x);
    } else {
        let bi = pile[k];
        let rec = next_pref_from(ballots[bi as int], status, 0);
        lemma_next_pref_cont(ballots[bi as int], status, 0);
        let piles1 = piles.update(rec, piles[rec].push(bi));
        let status1 = if rec != 0 && piles1[rec].len() >= quota {
            status.update(rec, Status::Elected)
        } else {
            status
        };
        lemma_occ_update(piles, rec, piles[rec].push(bi), slots(), x);
        lemma_count_in_push(piles[rec], bi, x);
        lemma_redistribute_occ(ballots, quota, piles1, status1, pile, k + 1, x);
    }
}

/// One elimination round conserves occurrences.
proof fn lemma_elim_round_occ(ballots: Seq<Ballot>, quota: int, m: TallyModel, x: u32)
    requires
        m.piles.len() == slots(),
        m.status.len() == slots(),
    ensures
        occ(spec_elim_round(ballots, quota, m).piles, slots(), x) == occ(m.piles, slots(), x),
        spec_elim_round(ballots, quota, m).piles.len() == slots(),
        spec_elim_round(ballots, quota, m).status.len() == slots(),
{
    let totals1 = m.totals.push(pile_sizes(m.piles));
    let target = select_from(m.piles, m.status, totals1, 1, 0);
    lemma_select_from_props(m.piles, m.status, totals1, 1, 0);
    if target != 0 {
        let status1 = m.status.update(target, Status::Eliminated);
        let pile = m.piles[target];
        let piles1 = m.piles.update(target, Seq::<u32>::empty());
        lemma_occ_update(m.piles, target, Seq::<u32>::empty(), slots(), x);
        lemma_redistribute_occ(ballots, quota, piles1, status1, pile, 0, x);
        lemma_redistribute_piles_len(ballots, quota, piles1, status1, pile, 0);
        lemma_redistribute_status(ballots, quota, piles1, status1, pile, 0);
    }
}

/// The elimination loop conserves occurrences.
proof fn lemma_elim_loop_occ(
    ballots: Seq<Ballot>,
    quota: int,
    seats: int,
    m: TallyModel,
    fuel: nat,
    x: u32,
)
    requires
        m.piles.len() == slots(),
        m.status.len() == slots(),
    ensures
        occ(spec_elim_loop(ballots, quota, seats, m, fuel).piles, slots(), x) == occ(
            m.piles,
            slots(),
            x,
        ),
    decreases fuel,
{
    if fuel == 0 || elim_done(m.status, seats) {
    } else {
        lemma_elim_round_occ(ballots, quota, m, x);
        lemma_elim_loop_occ(
            ballots,
            quota,
            seats,
            spec_elim_round(ballots, quota, m),
            (fuel - 1) as nat,
            x,
        );
    }
}

/// The partition law: at termination every ballot index below the ballot
/// count rests on exactly one pile (the exhausted pile included), and no
/// other index rests anywhere — no ballot is lost, duplicated, or invented.
/// Together with `lemma_ballot_conservation` this is ballot conservation in
/// full.
pub proof fn lemma_ballot_partition(seats: int, ballots: Seq<Ballot>)
    requires
        seats >= 0,
        ballots.len() < 0x1_0000_0000,
    ensures
        forall|x: u32|
            occ(#[trigger] spec_final_state(seats, ballots).piles, slots(), x) == if (x as int)
                < ballots.len() {
                1int
            } else {
                0int
            },
{
    let n = ballots.len() as int;
    let quota = spec_droop_quota(n, seats);
    assert(quota >= 0) by (nonlinear_arith)
        requires
            quota == (n + seats) / (seats + 1),
            n >= 0,
            seats >= 0,
    ;
    let piles0 = assign_first_prefs(ballots, n);
    lemma_assign_sum(ballots, n);
    lemma_assign_wf(ballots, n);
    let status1 = elect_from(piles0, init_status(), quota, 1);
    lemma_elect_from_char(piles0, init_status(), quota, 1);
    assert(continuing_below_quota(piles0, status1, quota));
    let order = surplus_order(piles0, quota);
    lemma_order_entries(piles0, quota, (slots() - 1) as nat);
    lemma_surplus_seq_facts(ballots, quota, piles0, status1, order, 0);
    let r = surplus_seq(ballots, quota, piles0, status1, order, 0);
    let status3 = zero_elim_from(r.0, r.1, 1);
    lemma_zero_elim_char(r.0, r.1, 1);
    let m3 = TallyModel { piles: r.0, status: status3, totals: seq![pile_sizes(piles0)] };
    assert forall|x: u32|
        occ(#[trigger] spec_final_state(seats, ballots).piles, slots(), x) == if (x as int) < n {
            1int
        } else {
            0int
        } by {
        lemma_assign_occ(ballots, n, x);
        lemma_surplus_seq_occ(ballots, quota, piles0, status1, order, 0, x);
        lemma_elim_loop_occ(ballots, quota, seats, m3, slots() as nat, x);
    }
}


/// The scan never unmarks a moved position.
proof fn lemma_scan_row_mono(
    ballots: Seq<Ballot>,
    quota: int,
    pile0: Seq<u32>,
    m: ScanModel,
    j: int,
    step: int,
    surplus: int,
)
    requires
        step >= 1,
        j >= 0,
        m.removed.len() == pile0.len(),
        m.piles.len() == slots(),
        forall|k: int| 0 <= k < pile0.len() ==> (#[trigger] pile0[k]) < ballots.len(),
    ensures
        ({
            let m1 = scan_row(ballots, quota, pile0, m, j, step, surplus);
            &&& forall|p: int| 0 <= p < pile0.len() && m.removed[p] ==> #[trigger] m1.removed[p]
            &&& (j < pile0.len() && m.moved < surplus ==> m1.removed[j])
            &&& m1.moved >= m.moved
            &&& (m.moved <= surplus ==> m1.moved <= surplus)
        }),
    decreases vstd::math::max(pile0.len() - j, 0),
{
    if j >= pile0.len() || m.moved >= surplus {
    } else {
        let m1 = scan_visit(ballots, quota, pile0, m, j);
        assert(m1.piles.len() == slots() && m1.removed.len() == pile0.len()) by {
            lemma_next_pref_cont(ballots[pile0[j] as int], m.status, 1);
        }
        lemma_scan_row_mono(ballots, quota, pile0, m1, j + step, step, surplus);
    }
}

/// All-true flags on a range bound the count from below.
proof fn lemma_count_true_lower(bs: Seq<bool>, a: int, b: int)
    requires
        0 <= a <= b <= bs.len(),
        forall|p: int| a <= p < b ==> bs[p],
    ensures
        count_true(bs, b) >= count_true(bs, a) + (b - a),
        count_true(bs, b) >= b - a,
    decreases b - a,
{
    lemma_count_true_bounds(bs, a);
    if a < b {
        lemma_count_true_lower(bs, a, b - 1);
    }
}

/// With enough sampling offsets the scan moves exactly the surplus: either
/// it stops at the surplus, or it has visited every offset from `step - 1`
/// on, which are at least `surplus` many.
proof fn lemma_scan_all_exact(
    ballots: Seq<Ballot>,
    quota: int,
    pile0: Seq<u32>,
    m: ScanModel,
    start: int,
    step: int,
    surplus: int,
    c: int,
)
    requires
        step >= 1,
        step - 1 <= start,
        start >= 0,
        m.piles.len() == slots(),
        m.status.len() == slots(),
        m.removed.len() == pile0.len(),
        forall|k: int| 0 <= k < pile0.len() ==> (#[trigger] pile0[k]) < ballots.len(),
        0 < c < slots(),
        m.status[c] is Elected,
        continuing_below_quota(m.piles, m.status, quota),
        m.moved <= surplus,
        m.moved == count_true(m.removed, pile0.len() as int),
        forall|p: int| step - 1 <= p < start && p < pile0.len() ==> m.removed[p],
        pile0.len() - step + 1 >= surplus,
        surplus >= 0,
    ensures
        scan_all(ballots, quota, pile0, m, start, step, surplus).moved == surplus,
    decreases pile0.len() - start,
{
    let len = pile0.len() as int;
    if m.moved >= surplus {
    } else if start >= len {
        // Every offset from step - 1 on is moved, and they number at least
        // the surplus: the counter cannot still be below it.
        lemma_count_true_lower(m.removed, step - 1, len);
        assert(false);
    } else {
        lemma_scan_row_facts(ballots, quota, pile0, m, start, step, surplus, c);
        lemma_scan_row_mono(ballots, quota, pile0, m, start, step, surplus);
        let m1 = scan_row(ballots, quota, pile0, m, start, step, surplus);
        lemma_scan_all_exact(ballots, quota, pile0, m1, start + 1, step, surplus, c);
    }
}

/// The integer sampling step leaves enough offsets: `surplus` many from
/// `step - 1` to the end of the pile.
proof fn lemma_step_bound(len: int, surplus: int)
    requires
        1 <= surplus <= len,
    ensures
        1 <= crate::model::spec_step(len, surplus),
        len - crate::model::spec_step(len, surplus) + 1 >= surplus,
{
    let step = crate::model::spec_step(len, surplus);
    assert(1 <= step && len - step + 1 >= surplus) by (nonlinear_arith)
        requires
            step == (2 * len + surplus) / (2 * surplus),
            1 <= surplus <= len,
    ;
}

/// The surplus-transfer law in general: a pile over quota loses exactly its
/// surplus to the sampling scan and is left holding exactly `quota`
/// ballots; a pile at or under quota is untouched.
pub proof fn lemma_surplus_transfer_exact(
    ballots: Seq<Ballot>,
    quota: int,
    piles: Seq<Seq<u32>>,
    status: Seq<Status>,
    c: int,
)
    requires
        quota >= 0,
        piles.len() == slots(),
        status.len() == slots(),
        0 < c < slots(),
        forall|k: int| 0 <= k < piles[c].len() ==> (#[trigger] piles[c][k]) < ballots.len(),
        piles[c].len() > quota ==> status[c] is Elected,
        continuing_below_quota(piles, status, quota),
    ensures
        spec_surplus_one(ballots, quota, piles, status, c).0[c].len() == if piles[c].len()
            > quota {
            quota
        } else {
            piles[c].len() as int
        },
{
    let pile0 = piles[c];
    let len = pile0.len() as int;
    let surplus = len - quota;
    if surplus <= 0 {
    } else {
        lemma_step_bound(len, surplus);
        let step = crate::model::spec_step(len, surplus);
        let m0 = ScanModel {
            piles: piles.update(c, Seq::<u32>::empty()),
            status: status,
            removed: Seq::new(pile0.len(), |i: int| false),
            moved: 0,
        };
        lemma_count_true_zero(m0.removed, len);
        lemma_scan_all_exact(ballots, quota, pile0, m0, step - 1, step, surplus, c);
        lemma_scan_all_facts(ballots, quota, pile0, m0, step - 1, step, surplus, c);
        let m1 = scan_all(ballots, quota, pile0, m0, step - 1, step, surplus);
        lemma_count_true_bounds(m1.removed, len);
        lemma_keep_len(pile0, m1.removed, len);
    }
}

} // verus!

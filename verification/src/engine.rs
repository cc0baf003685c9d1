//! The executable single-transferable-vote engine, proved to compute exactly
//! the model of `model`.
use crate::model::{
    assign_first_prefs, count_cont, count_nonelim, elect_from, elected_prefix, elim_done,
    empty_piles, hist_prefers, init_status, keep_unremoved, lemma_count_bounds,
    lemma_count_cont_exists, lemma_count_elim_target, lemma_count_same_elim,
    lemma_redistribute_status, lemma_select_from_props, min_over_from, next_pref_from, order_rec,
    pile_sizes, piles_wf, redistribute, scan_all, scan_row, scan_visit, select_from, slots,
    spec_elim_loop, spec_elim_round, spec_final_state, spec_step,
    spec_surplus_one, spec_tabulate, spec_tabulate_elected, surplus_order, surplus_seq,
    survivors_prefix, zero_elim_from, Ballot, ScanModel, Status, TallyModel,
};
use vstd::prelude::*;

verus! {

/// The piles of a running count, seen as plain sequences.
pub open spec fn pview(piles: Seq<Vec<u32>>) -> Seq<Seq<u32>> {
    piles.map_values(|p: Vec<u32>| p@)
}

/// A sequence of machine integers, seen as mathematical integers.
pub open spec fn as_ints(s: Seq<usize>) -> Seq<int> {
    s.map_values(|x: usize| x as int)
}

/// The recorded history rows, seen as plain sequences of integers.
pub open spec fn tview(totals: Seq<Vec<usize>>) -> Seq<Seq<int>> {
    totals.map_values(|r: Vec<usize>| as_ints(r@))
}

/// 256 empty piles, one per candidate id.
fn new_piles() -> (r: Vec<Vec<u32>>)
    ensures
        pview(r@) == empty_piles(),
{
    let mut r: Vec<Vec<u32>> = Vec::new();
    for i in 0..256usize
        invariant
            r@.len() == i,
            forall|k: int| 0 <= k < i ==> #[trigger] r@[k]@ == Seq::<u32>::empty(),
    {
        r.push(Vec::new());
    }
    proof {
        assert(pview(r@) =~= empty_piles());
    }
    r
}

/// The initial standings: the sentinel eliminated, every real id continuing.
fn new_statuses() -> (r: Vec<Status>)
    ensures
        r@ == init_status(),
{
    let mut r: Vec<Status> = Vec::new();
    r.push(Status::Eliminated);
    for i in 1..256usize
        invariant
            r@.len() == i,
            forall|k: int| 0 <= k < i ==> r@[k] == init_status()[k],
    {
        r.push(Status::Continuing);
    }
    proof {
        assert(r@ =~= init_status());
    }
    r
}

/// The id of the first preference of `b` at or after rank `k0` that is still
/// continuing, or 0 if the preferences run out first.
#[verifier::loop_isolation(false)]
fn next_pref(b: &Ballot, status: &Vec<Status>, k0: usize) -> (r: usize)
    requires
        status@.len() == slots(),
    ensures
        r as int == next_pref_from(*b, status@, k0 as int),
        r < slots(),
{
    let mut k = k0;
    while k < 16
        invariant
            next_pref_from(*b, status@, k0 as int) == next_pref_from(*b, status@, k as int),
            k >= k0,
        decreases 16 - k,
    {
        let c = b[k];
        if c == 0 {
            return 0;
        }
        if matches!(status[c as usize], Status::Continuing) {
            return c as usize;
        }
        k += 1;
    }
    0
}

/// One row of current pile sizes, recorded for tie-breaking.
fn sizes_row(piles: &Vec<Vec<u32>>) -> (r: Vec<usize>)
    requires
        piles@.len() == slots(),
    ensures
        as_ints(r@) == pile_sizes(pview(piles@)),
        r@.len() == slots(),
{
    let mut r: Vec<usize> = Vec::new();
    for i in 0..256usize
        invariant
            piles@.len() == slots(),
            r@.len() == i,
            forall|k: int| 0 <= k < i ==> r@[k] == piles@[k]@.len(),
    {
        r.push(piles[i].len());
    }
    proof {
        assert(as_ints(r@) =~= pile_sizes(pview(piles@)));
    }
    r
}

/// Marks every candidate whose pile meets the quota as elected.
fn elect_initial(piles: &Vec<Vec<u32>>, status: &mut Vec<Status>, quota: usize)
    requires
        piles@.len() == slots(),
        old(status)@.len() == slots(),
    ensures
        final(status)@ == elect_from(pview(piles@), old(status)@, quota as int, 1),
        final(status)@.len() == slots(),
{
    let ghost fin = elect_from(pview(piles@), status@, quota as int, 1);
    for i in 1..256usize
        invariant
            piles@.len() == slots(),
            status@.len() == slots(),
            elect_from(pview(piles@), status@, quota as int, i as int) == fin,
    {
        if piles[i].len() >= quota {
            status[i] = Status::Elected;
        }
    }
}

/// Marks every candidate whose pile is empty as eliminated.
fn eliminate_empty(piles: &Vec<Vec<u32>>, status: &mut Vec<Status>)
    requires
        piles@.len() == slots(),
        old(status)@.len() == slots(),
    ensures
        final(status)@ == zero_elim_from(pview(piles@), old(status)@, 1),
        final(status)@.len() == slots(),
{
    let ghost fin = zero_elim_from(pview(piles@), status@, 1);
    for i in 1..256usize
        invariant
            piles@.len() == slots(),
            status@.len() == slots(),
            zero_elim_from(pview(piles@), status@, i as int) == fin,
    {
        if piles[i].len() == 0 {
            status[i] = Status::Eliminated;
        }
    }
}

/// Places every ballot on the pile of its first listed preference.
#[verifier::loop_isolation(false)]
fn assign_ballots(ballots: &[Ballot], piles: &mut Vec<Vec<u32>>)
    requires
        pview(old(piles)@) == empty_piles(),
        ballots@.len() < 0x8000_0000,
    ensures
        pview(final(piles)@) == assign_first_prefs(ballots@, ballots@.len() as int),
        final(piles)@.len() == slots(),
        piles_wf(pview(final(piles)@), ballots@.len() as int),
{
    proof {
        assert(piles@.len() == slots()) by {
            assert(pview(piles@).len() == piles@.len());
        }
        assert(piles_wf(pview(piles@), ballots@.len() as int));
    }
    let n = ballots.len();
    for i in 0..n
        invariant
            piles@.len() == slots(),
            pview(piles@) == assign_first_prefs(ballots@, i as int),
            piles_wf(pview(piles@), ballots@.len() as int),
    {
        let c = ballots[i][0] as usize;
        let ghost prev = pview(piles@);
        piles[c].push(i as u32);
        proof {
            assert(pview(piles@) =~= prev.update(c as int, prev[c as int].push(i as u32)));
        }
    }
}

/// Whether candidate id `c` is already in the transfer order.
#[verifier::loop_isolation(false)]
fn order_contains(order: &Vec<usize>, c: usize) -> (r: bool)
    ensures
        r == as_ints(order@).contains(c as int),
{
    let mut j: usize = 0;
    while j < order.len()
        invariant
            0 <= j <= order@.len(),
            forall|k: int| 0 <= k < j ==> as_ints(order@)[k] != c as int,
        decreases order@.len() - j,
    {
        if order[j] == c {
            proof {
                assert(as_ints(order@)[j as int] == c as int);
            }
            return true;
        }
        j += 1;
    }
    false
}

/// The over-quota candidate with the smallest pile not yet in the order, or
/// 0 if none is left.
#[verifier::loop_isolation(false)]
fn find_min_over(piles: &Vec<Vec<u32>>, quota: usize, order: &Vec<usize>) -> (r: usize)
    requires
        piles@.len() == slots(),
    ensures
        r as int == min_over_from(pview(piles@), quota as int, as_ints(order@), 1, 0),
        r < slots(),
{
    let ghost fin = min_over_from(pview(piles@), quota as int, as_ints(order@), 1, 0);
    let mut best: usize = 0;
    for i in 1..256usize
        invariant
            best < slots(),
            min_over_from(pview(piles@), quota as int, as_ints(order@), i as int, best as int)
                == fin,
    {
        if piles[i].len() > quota && !order_contains(order, i) && (best == 0 || piles[i].len()
            < piles[best].len()) {
            best = i;
        }
    }
    best
}

/// The order in which surpluses are transferred: every over-quota candidate,
/// ascending by pile size, ties by id.
#[verifier::loop_isolation(false)]
fn compute_order(piles: &Vec<Vec<u32>>, quota: usize) -> (r: Vec<usize>)
    requires
        piles@.len() == slots(),
    ensures
        as_ints(r@) == surplus_order(pview(piles@), quota as int),
        forall|k: int| 0 <= k < r@.len() ==> 0 < #[trigger] r@[k] < slots(),
{
    let mut order: Vec<usize> = Vec::new();
    for k in 0..255usize
        invariant
            as_ints(order@) == order_rec(pview(piles@), quota as int, k as nat),
            forall|j: int| 0 <= j < order@.len() ==> 0 < #[trigger] order@[j] < slots(),
    {
        let m = find_min_over(piles, quota, &order);
        let ghost prev = as_ints(order@);
        if m != 0 {
            order.push(m);
            proof {
                assert(as_ints(order@) =~= prev.push(m as int));
            }
        }
        proof {
            assert(as_ints(order@) == order_rec(pview(piles@), quota as int, (k + 1) as nat));
        }
    }
    order
}


/// Transfers candidate `c`'s surplus by stepped sampling: every `step`-th
/// ballot of the pile moves to its next continuing preference until exactly
/// the surplus has been moved or the sampling offsets run out
/// (`laws::lemma_surplus_transfer_exact` shows the offsets always suffice,
/// so exactly the surplus leaves and the pile is left holding the quota).
#[verifier::loop_isolation(false)]
fn surplus_one(
    ballots: &[Ballot],
    quota: usize,
    piles: &mut Vec<Vec<u32>>,
    status: &mut Vec<Status>,
    c: usize,
)
    requires
        0 < c < slots(),
        old(piles)@.len() == slots(),
        old(status)@.len() == slots(),
        piles_wf(pview(old(piles)@), ballots@.len() as int),
        ballots@.len() < 0x8000_0000,
    ensures
        pview(final(piles)@) == spec_surplus_one(
            ballots@,
            quota as int,
            pview(old(piles)@),
            old(status)@,
            c as int,
        ).0,
        final(status)@ == spec_surplus_one(
            ballots@,
            quota as int,
            pview(old(piles)@),
            old(status)@,
            c as int,
        ).1,
        final(piles)@.len() == slots(),
        final(status)@.len() == slots(),
        piles_wf(pview(final(piles)@), ballots@.len() as int),
{
    let n = ballots.len();
    let len = piles[c].len();
    if len <= quota {
        return ;
    }
    let surplus = len - quota;
    let wide: u128 = (2u128 * (len as u128) + (surplus as u128)) / (2u128 * (surplus as u128));
    assert(wide <= len as u128 && wide >= 1) by (nonlinear_arith)
        requires
            1 <= surplus as u128 <= len as u128,
            wide == (2u128 * (len as u128) + (surplus as u128)) / (2u128 * (surplus as u128)),
    ;
    let step: usize = wide as usize;
    proof {
        assert(step as int == spec_step(len as int, surplus as int));
    }

    // Take the pile snapshot out; the slot stays empty while it is scanned.
    let mut pile0: Vec<u32> = Vec::new();
    core::mem::swap(&mut pile0, &mut piles[c]);
    let ghost pile0s = pile0@;
    proof {
        assert(pview(piles@) =~= pview(old(piles)@).update(c as int, Seq::<u32>::empty()));
        assert(piles_wf(pview(piles@), n as int));
        assert(forall|k: int| 0 <= k < pile0s.len() ==> pile0s[k] < n);
    }

    let mut removed: Vec<bool> = Vec::new();
    for jj in 0..len
        invariant
            removed@.len() == jj,
            forall|k: int| 0 <= k < jj ==> !removed@[k],
    {
        removed.push(false);
    }
    proof {
        assert(removed@ =~= Seq::new(pile0s.len(), |i: int| false));
    }

    let ghost m0 = ScanModel { piles: pview(piles@), status: status@, removed: removed@, moved: 0 };
    let ghost mfin = scan_all(
        ballots@,
        quota as int,
        pile0s,
        m0,
        step - 1,
        step as int,
        surplus as int,
    );

    let mut moved: usize = 0;
    let mut start = step - 1;
    while moved < surplus && start < len
        invariant
            piles@.len() == slots(),
            status@.len() == slots(),
            removed@.len() == len,
            pile0@ == pile0s,
            pile0s.len() == len,
            forall|k: int| 0 <= k < pile0s.len() ==> pile0s[k] < n,
            moved <= surplus,
            piles_wf(pview(piles@), n as int),
            scan_all(
                ballots@,
                quota as int,
                pile0s,
                ScanModel {
                    piles: pview(piles@),
                    status: status@,
                    removed: removed@,
                    moved: moved as int,
                },
                start as int,
                step as int,
                surplus as int,
            ) == mfin,
        decreases len - start,
    {
        let mut j = start;
        while j < len && moved < surplus
            invariant
                piles@.len() == slots(),
                status@.len() == slots(),
                removed@.len() == len,
                pile0@ == pile0s,
                pile0s.len() == len,
                forall|k: int| 0 <= k < pile0s.len() ==> pile0s[k] < n,
                moved <= surplus,
                start < len,
                j <= len,
                piles_wf(pview(piles@), n as int),
                scan_all(
                    ballots@,
                    quota as int,
                    pile0s,
                    scan_row(
                        ballots@,
                        quota as int,
                        pile0s,
                        ScanModel {
                            piles: pview(piles@),
                            status: status@,
                            removed: removed@,
                            moved: moved as int,
                        },
                        j as int,
                        step as int,
                        surplus as int,
                    ),
                    start as int + 1,
                    step as int,
                    surplus as int,
                ) == mfin,
            decreases len - j,
        {
            let ghost mcur = ScanModel {
                piles: pview(piles@),
                status: status@,
                removed: removed@,
                moved: moved as int,
            };
            let ghost jold = j as int;
            if !removed[j] {
                let bi = pile0[j];
                let b = ballots[bi as usize];
                let rec = next_pref(&b, status, 1);
                let ghost prev = pview(piles@);
                piles[rec].push(bi);
                proof {
                    assert(pview(piles@) =~= prev.update(
                        rec as int,
                        prev[rec as int].push(bi),
                    ));
                }
                if rec != 0 && piles[rec].len() >= quota {
                    status[rec] = Status::Elected;
                }
                removed[j] = true;
                moved += 1;
                proof {
                    assert(ScanModel {
                        piles: pview(piles@),
                        status: status@,
                        removed: removed@,
                        moved: moved as int,
                    } == scan_visit(ballots@, quota as int, pile0s, mcur, j as int));
                }
            } else {
                proof {
                    assert(ScanModel {
                        piles: pview(piles@),
                        status: status@,
                        removed: removed@,
                        moved: moved as int,
                    } == scan_visit(ballots@, quota as int, pile0s, mcur, j as int));
                }
            }
            j = if step < len - j {
                j + step
            } else {
                len
            };
            proof {
                let cnew = ScanModel {
                    piles: pview(piles@),
                    status: status@,
                    removed: removed@,
                    moved: moved as int,
                };
                assert(cnew == scan_visit(ballots@, quota as int, pile0s, mcur, jold));
                assert(scan_row(
                    ballots@,
                    quota as int,
                    pile0s,
                    mcur,
                    jold,
                    step as int,
                    surplus as int,
                ) == scan_row(
                    ballots@,
                    quota as int,
                    pile0s,
                    cnew,
                    jold + step,
                    step as int,
                    surplus as int,
                ));
                assert(scan_row(
                    ballots@,
                    quota as int,
                    pile0s,
                    cnew,
                    j as int,
                    step as int,
                    surplus as int,
                ) == scan_row(
                    ballots@,
                    quota as int,
                    pile0s,
                    cnew,
                    jold + step,
                    step as int,
                    surplus as int,
                ));
            }
        }
        start += 1;
    }

    // Rebuild what is left of the snapshot, in its original order.
    let mut kept: Vec<u32> = Vec::new();
    for jj in 0..len
        invariant
            removed@.len() == len,
            pile0@ == pile0s,
            kept@ == keep_unremoved(pile0s, removed@, jj as int),
            forall|k: int| 0 <= k < kept@.len() ==> #[trigger] kept@[k] < n,
    {
        if !removed[jj] {
            kept.push(pile0[jj]);
        }
    }
    piles[c] = kept;
    proof {
        assert(pview(piles@) =~= mfin.piles.update(
            c as int,
            keep_unremoved(pile0s, mfin.removed, len as int),
        ));
        assert(pview(piles@) == spec_surplus_one(
            ballots@,
            quota as int,
            pview(old(piles)@),
            old(status)@,
            c as int,
        ).0);
        assert(piles_wf(pview(piles@), n as int));
    }
}



/// Transfers all surpluses in order, smallest pile first.
#[verifier::loop_isolation(false)]
fn surplus_phase(
    ballots: &[Ballot],
    quota: usize,
    piles: &mut Vec<Vec<u32>>,
    status: &mut Vec<Status>,
    order: &Vec<usize>,
)
    requires
        old(piles)@.len() == slots(),
        old(status)@.len() == slots(),
        piles_wf(pview(old(piles)@), ballots@.len() as int),
        ballots@.len() < 0x8000_0000,
        forall|k: int| 0 <= k < order@.len() ==> 0 < #[trigger] order@[k] < slots(),
    ensures
        pview(final(piles)@) == surplus_seq(
            ballots@,
            quota as int,
            pview(old(piles)@),
            old(status)@,
            as_ints(order@),
            0,
        ).0,
        final(status)@ == surplus_seq(
            ballots@,
            quota as int,
            pview(old(piles)@),
            old(status)@,
            as_ints(order@),
            0,
        ).1,
        final(piles)@.len() == slots(),
        final(status)@.len() == slots(),
        piles_wf(pview(final(piles)@), ballots@.len() as int),
{
    let ghost fin = surplus_seq(
        ballots@,
        quota as int,
        pview(piles@),
        status@,
        as_ints(order@),
        0,
    );
    let n = ballots.len();
    for k in 0..order.len()
        invariant
            piles@.len() == slots(),
            status@.len() == slots(),
            piles_wf(pview(piles@), n as int),
            surplus_seq(
                ballots@,
                quota as int,
                pview(piles@),
                status@,
                as_ints(order@),
                k as int,
            ) == fin,
    {
        surplus_one(ballots, quota, piles, status, order[k]);
    }
}

/// Counts the candidates not eliminated and the candidates still continuing.
#[verifier::loop_isolation(false)]
fn count_standing(status: &Vec<Status>) -> (r: (usize, usize))
    requires
        status@.len() == slots(),
    ensures
        r.0 as int == count_nonelim(status@, 0),
        r.1 as int == count_cont(status@, 1),
{
    let mut ne: usize = 0;
    let mut co: usize = 0;
    for i in 0..256usize
        invariant
            ne <= i,
            ne as int + count_nonelim(status@, i as int) == count_nonelim(status@, 0),
    {
        if !matches!(status[i], Status::Eliminated) {
            ne += 1;
        }
    }
    for i in 1..256usize
        invariant
            co < i,
            co as int + count_cont(status@, i as int) == count_cont(status@, 1),
    {
        if matches!(status[i], Status::Continuing) {
            co += 1;
        }
    }
    (ne, co)
}

/// Scans the recorded rounds from the most recent backward and reports
/// whether they break the tie in favour of eliminating `a` rather than `b`.
#[verifier::loop_isolation(false)]
fn hist_prefers_exec(totals: &Vec<Vec<usize>>, a: usize, b: usize) -> (r: bool)
    requires
        a < slots(),
        b < slots(),
        forall|t: int| 0 <= t < totals@.len() ==> #[trigger] totals@[t]@.len() == slots(),
    ensures
        r == hist_prefers(tview(totals@), a as int, b as int, totals@.len() as int),
{
    let mut r = totals.len();
    while r > 0
        invariant
            r <= totals@.len(),
            hist_prefers(tview(totals@), a as int, b as int, totals@.len() as int) == hist_prefers(
                tview(totals@),
                a as int,
                b as int,
                r as int,
            ),
        decreases r,
    {
        let va = totals[r - 1][a];
        let vb = totals[r - 1][b];
        if va < vb {
            return true;
        }
        if va > vb {
            return false;
        }
        r -= 1;
    }
    false
}

/// Picks the elimination target: the continuing candidate with the smallest
/// pile, history breaking ties; when all history is tied the earliest id
/// wins the tie and survives. Returns 0 when no continuing candidate is
/// left.
#[verifier::loop_isolation(false)]
fn select_target(piles: &Vec<Vec<u32>>, status: &Vec<Status>, totals: &Vec<Vec<usize>>) -> (r:
    usize)
    requires
        piles@.len() == slots(),
        status@.len() == slots(),
        forall|t: int| 0 <= t < totals@.len() ==> #[trigger] totals@[t]@.len() == slots(),
    ensures
        r as int == select_from(pview(piles@), status@, tview(totals@), 1, 0),
        r < slots(),
{
    let ghost fin = select_from(pview(piles@), status@, tview(totals@), 1, 0);
    let mut best: usize = 0;
    for i in 1..256usize
        invariant
            best < slots(),
            select_from(pview(piles@), status@, tview(totals@), i as int, best as int) == fin,
    {
        let better = matches!(status[i], Status::Continuing) && (best == 0 || piles[i].len()
            < piles[best].len() || (piles[i].len() == piles[best].len() && !hist_prefers_exec(
            totals,
            best,
            i,
        )));
        if better {
            best = i;
        }
    }
    best
}

/// Moves every ballot of an eliminated candidate's pile to its next
/// continuing preference, electing any recipient that reaches the quota.
#[verifier::loop_isolation(false)]
fn redistribute_pile(
    ballots: &[Ballot],
    quota: usize,
    piles: &mut Vec<Vec<u32>>,
    status: &mut Vec<Status>,
    pile: &Vec<u32>,
)
    requires
        old(piles)@.len() == slots(),
        old(status)@.len() == slots(),
        piles_wf(pview(old(piles)@), ballots@.len() as int),
        forall|k: int| 0 <= k < pile@.len() ==> #[trigger] pile@[k] < ballots@.len(),
    ensures
        pview(final(piles)@) == redistribute(
            ballots@,
            quota as int,
            pview(old(piles)@),
            old(status)@,
            pile@,
            0,
        ).0,
        final(status)@ == redistribute(
            ballots@,
            quota as int,
            pview(old(piles)@),
            old(status)@,
            pile@,
            0,
        ).1,
        final(piles)@.len() == slots(),
        final(status)@.len() == slots(),
        piles_wf(pview(final(piles)@), ballots@.len() as int),
{
    let ghost fin = redistribute(ballots@, quota as int, pview(piles@), status@, pile@, 0);
    let n = ballots.len();
    for k in 0..pile.len()
        invariant
            piles@.len() == slots(),
            status@.len() == slots(),
            piles_wf(pview(piles@), n as int),
            redistribute(ballots@, quota as int, pview(piles@), status@, pile@, k as int) == fin,
    {
        let bi = pile[k];
        let b = ballots[bi as usize];
        let rec = next_pref(&b, status, 0);
        let ghost prev = pview(piles@);
        piles[rec].push(bi);
        proof {
            assert(pview(piles@) =~= prev.update(rec as int, prev[rec as int].push(bi)));
        }
        if rec != 0 && piles[rec].len() >= quota {
            status[rec] = Status::Elected;
        }
    }
}

/// Runs elimination rounds until no more candidates remain than seats, or no
/// continuing candidate is left to eliminate.
#[verifier::loop_isolation(false)]
fn run_eliminations(
    ballots: &[Ballot],
    quota: usize,
    seats: usize,
    piles: &mut Vec<Vec<u32>>,
    status: &mut Vec<Status>,
    totals: &mut Vec<Vec<usize>>,
)
    requires
        old(piles)@.len() == slots(),
        old(status)@.len() == slots(),
        piles_wf(pview(old(piles)@), ballots@.len() as int),
        ballots@.len() < 0x8000_0000,
        forall|t: int| 0 <= t < old(totals)@.len() ==> #[trigger] old(totals)@[t]@.len() == slots(),
    ensures
        ({
            let m = spec_elim_loop(
                ballots@,
                quota as int,
                seats as int,
                TallyModel {
                    piles: pview(old(piles)@),
                    status: old(status)@,
                    totals: tview(old(totals)@),
                },
                slots() as nat,
            );
            &&& pview(final(piles)@) == m.piles
            &&& final(status)@ == m.status
            &&& tview(final(totals)@) == m.totals
        }),
        elim_done(final(status)@, seats as int),
        final(piles)@.len() == slots(),
        final(status)@.len() == slots(),
        piles_wf(pview(final(piles)@), ballots@.len() as int),
        forall|t: int| 0 <= t < final(totals)@.len() ==> #[trigger] final(totals)@[t]@.len()
            == slots(),
{
    let ghost m_in = TallyModel { piles: pview(piles@), status: status@, totals: tview(totals@) };
    let ghost fin = spec_elim_loop(ballots@, quota as int, seats as int, m_in, slots() as nat);
    let ghost mut fuel: nat = slots() as nat;
    proof {
        lemma_count_bounds(status@, 0);
    }
    let n = ballots.len();
    loop
        invariant
            piles@.len() == slots(),
            status@.len() == slots(),
            piles_wf(pview(piles@), n as int),
            n == ballots@.len(),
            forall|t: int| 0 <= t < totals@.len() ==> #[trigger] totals@[t]@.len() == slots(),
            fuel >= count_nonelim(status@, 0),
            spec_elim_loop(
                ballots@,
                quota as int,
                seats as int,
                TallyModel { piles: pview(piles@), status: status@, totals: tview(totals@) },
                fuel,
            ) == fin,
        decreases fuel,
    {
        let (ne, co) = count_standing(status);
        if ne <= seats || co == 0 {
            break ;
        }
        let ghost mcur = TallyModel {
            piles: pview(piles@),
            status: status@,
            totals: tview(totals@),
        };
        let ghost tprev = tview(totals@);

        // Record this round's pile sizes for the tie-break history.
        let row = sizes_row(piles);
        totals.push(row);
        proof {
            assert(tview(totals@) =~= tprev.push(pile_sizes(pview(piles@))));
        }

        // Pick and retire the weakest continuing candidate.
        let target = select_target(piles, status, totals);
        proof {
            lemma_count_cont_exists(status@, 1);
            lemma_select_from_props(pview(piles@), status@, tview(totals@), 1, 0);
            assert(target != 0);
        }
        status[target] = Status::Eliminated;
        let mut pile: Vec<u32> = Vec::new();
        core::mem::swap(&mut pile, &mut piles[target]);
        proof {
            assert(pview(piles@) =~= mcur.piles.update(target as int, Seq::<u32>::empty()));
            assert(forall|k: int| 0 <= k < pile@.len() ==> #[trigger] pile@[k] < n);
        }
        let ghost status_mid = status@;
        let ghost piles_mid = pview(piles@);
        redistribute_pile(ballots, quota, piles, status, &pile);
        proof {
            // The round matches the model, and retires exactly one candidate.
            let mnext = TallyModel {
                piles: pview(piles@),
                status: status@,
                totals: tview(totals@),
            };
            assert(mnext == spec_elim_round(ballots@, quota as int, mcur));
            lemma_redistribute_status(ballots@, quota as int, piles_mid, status_mid, pile@, 0);
            lemma_count_same_elim(status@, status_mid, 0);
            lemma_count_elim_target(mcur.status, target as int, 0);
            fuel = (fuel - 1) as nat;
        }
    }
}

/// The ids left standing (not eliminated) at termination, ascending.
#[verifier::loop_isolation(false)]
fn collect_survivors(status: &Vec<Status>) -> (r: Vec<u8>)
    requires
        status@.len() == slots(),
    ensures
        r@ == survivors_prefix(status@, slots()),
{
    let mut r: Vec<u8> = Vec::new();
    for i in 0..256usize
        invariant
            r@ == survivors_prefix(status@, i as int),
    {
        if !matches!(status[i], Status::Eliminated) {
            r.push(i as u8);
        }
    }
    r
}

/// The ids elected by quota at termination, ascending.
#[verifier::loop_isolation(false)]
fn collect_elected(status: &Vec<Status>) -> (r: Vec<u8>)
    requires
        status@.len() == slots(),
    ensures
        r@ == elected_prefix(status@, slots()),
{
    let mut r: Vec<u8> = Vec::new();
    for i in 0..256usize
        invariant
            r@ == elected_prefix(status@, i as int),
    {
        if matches!(status[i], Status::Elected) {
            r.push(i as u8);
        }
    }
    r
}

/// Runs the whole count and returns the final piles and standings.
fn final_tally(seats: usize, ballots: &[Ballot]) -> (r: (Vec<Vec<u32>>, Vec<Status>))
    requires
        ballots@.len() < 0x8000_0000,
        seats < usize::MAX,
        ballots@.len() + seats <= usize::MAX,
    ensures
        pview(r.0@) == spec_final_state(seats as int, ballots@).piles,
        r.1@ == spec_final_state(seats as int, ballots@).status,
        r.0@.len() == slots(),
        r.1@.len() == slots(),
{
    let mut piles = new_piles();
    proof {
        assert(piles@.len() == slots()) by {
            assert(pview(piles@).len() == piles@.len());
        }
    }
    assign_ballots(ballots, &mut piles);
    let mut totals: Vec<Vec<usize>> = Vec::new();
    let row0 = sizes_row(&piles);
    totals.push(row0);
    proof {
        assert(tview(totals@) =~= seq![pile_sizes(pview(piles@))]);
    }
    let quota = (ballots.len() + seats) / (seats + 1);
    let mut status = new_statuses();
    elect_initial(&piles, &mut status, quota);
    let order = compute_order(&piles, quota);
    surplus_phase(ballots, quota, &mut piles, &mut status, &order);
    eliminate_empty(&piles, &mut status);
    run_eliminations(ballots, quota, seats, &mut piles, &mut status, &mut totals);
    (piles, status)
}

/// Tabulates the winners of a single-transferable-vote election: `seats`
/// seats, one ranked ballot per entry of `ballots`. Returns the sorted ids
/// of every candidate left standing at termination (the all-survivors rule,
/// under which uncontested continuing candidates win their seats; see
/// `tabulate` for the quota-respecting alternative).
///
/// The result is a function of the inputs alone: two calls on the same seat
/// count and ballot sequence always return the same winners. The candidate
/// names and ballot ids are accepted for callers that carry them, but play
/// no part in the count.
pub fn run(seats: usize, ballots: &[Ballot], _names: &[&str], _ballot_ids: &[String]) -> (r: Vec<
    u8,
>)
    requires
        ballots@.len() < 0x8000_0000,
        seats < usize::MAX,
        ballots@.len() + seats <= usize::MAX,
    ensures
        r@ == spec_tabulate(seats as int, ballots@),
{
    let (_, status) = final_tally(seats, ballots);
    collect_survivors(&status)
}

/// Which of the two observed winner rules `tabulate` applies.
#[derive(Clone, Copy, Debug, PartialEq, Eq, Structural)]
pub enum WinnerRule {
    /// Only candidates that reached the quota win (the quota-respecting
    /// rule).
    ElectedOnly,
    /// Every candidate never eliminated wins, continuing candidates
    /// included (the legacy all-survivors rule, used by `run`).
    AllSurvivors,
}

/// Tabulates the winners under an explicitly chosen winner rule.
pub fn tabulate(seats: usize, ballots: &[Ballot], rule: WinnerRule) -> (r: Vec<u8>)
    requires
        ballots@.len() < 0x8000_0000,
        seats < usize::MAX,
        ballots@.len() + seats <= usize::MAX,
    ensures
        rule is AllSurvivors ==> r@ == spec_tabulate(seats as int, ballots@),
        rule is ElectedOnly ==> r@ == spec_tabulate_elected(seats as int, ballots@),
{
    let (_, status) = final_tally(seats, ballots);
    match rule {
        WinnerRule::AllSurvivors => collect_survivors(&status),
        WinnerRule::ElectedOnly => collect_elected(&status),
    }
}

/// The size of every candidate's pile at termination, the exhausted pile at
/// index 0 included. By `laws::lemma_ballot_conservation` these always add
/// up to the ballot count.
pub fn final_pile_sizes(seats: usize, ballots: &[Ballot]) -> (r: Vec<usize>)
    requires
        ballots@.len() < 0x8000_0000,
        seats < usize::MAX,
        ballots@.len() + seats <= usize::MAX,
    ensures
        as_ints(r@) == pile_sizes(spec_final_state(seats as int, ballots@).piles),
        r@.len() == slots(),
{
    let (piles, _) = final_tally(seats, ballots);
    sizes_row(&piles)
}

} // verus!

//! Mathematical model of the single-transferable-vote tabulation.
//!
//! Every phase of the count is defined here as a spec function over plain
//! sequences. The executable engine in `engine` is proved to compute exactly
//! `spec_tabulate`, so two runs on the same ballots and seat count always
//! agree.
//!
//! Candidate ids are integers in `0..256`. Id `0` is the exhausted-ballot
//! sentinel: it starts `Eliminated` and never changes. A ballot is a ranked
//! list of 16 candidate ids, padded with the sentinel once the real
//! preferences run out.
use vstd::prelude::*;

verus! {

/// A ranked ballot: up to 16 preferences, sentinel-padded at the back.
pub type Ballot = [u8; 16];

/// How many pile slots the count keeps: one per possible candidate id,
/// including the sentinel.
pub open spec fn slots() -> int {
    256
}

/// The standing of one candidate during the count.
#[derive(Clone, Copy, Debug, PartialEq, Eq, Structural)]
pub enum Status {
    /// Still in the running: neither elected nor eliminated.
    Continuing,
    /// Reached the quota and holds a seat.
    Elected,
    /// Out of the running; their ballots flow to later preferences.
    Eliminated,
}

/// The whole state of a count: one pile of ballot indices per candidate id,
/// one status per candidate id, and the append-only history of pile sizes
/// used for tie-breaking.
pub ghost struct TallyModel {
    /// `piles[c]` holds the indices of the ballots currently resting on
    /// candidate `c`; `piles[0]` holds the exhausted ballots.
    pub piles: Seq<Seq<u32>>,
    /// The standing of each candidate id.
    pub status: Seq<Status>,
    /// One row of pile sizes per recorded round, oldest first.
    pub totals: Seq<Seq<int>>,
}

/// The Droop quota: the smallest whole number of votes such that only
/// `seats` candidates can reach it simultaneously.
pub open spec fn spec_droop_quota(n_ballots: int, seats: int) -> int {
    (n_ballots + seats) / (seats + 1)
}

/// 256 empty piles.
pub open spec fn empty_piles() -> Seq<Seq<u32>> {
    Seq::new(slots() as nat, |i: int| Seq::<u32>::empty())
}

/// The initial standing: the sentinel is eliminated from the start, every
/// real candidate id is continuing.
pub open spec fn init_status() -> Seq<Status> {
    Seq::new(slots() as nat, |i: int| if i == 0 { Status::Eliminated } else { Status::Continuing })
}

/// The piles after the first `n` ballots have been placed on their first
/// listed preference (the sentinel pile for fully blank ballots).
pub open spec fn assign_first_prefs(ballots: Seq<Ballot>, n: int) -> Seq<Seq<u32>>
    decreases n,
{
    if n <= 0 {
        empty_piles()
    } else {
        let prev = assign_first_prefs(ballots, n - 1);
        let c = ballots[n - 1]@[0] as int;
        prev.update(c, prev[c].push((n - 1) as u32))
    }
}

/// The sizes of all piles, as one history row.
pub open spec fn pile_sizes(piles: Seq<Seq<u32>>) -> Seq<int> {
    Seq::new(piles.len(), |c: int| piles[c].len() as int)
}

/// The id of the first preference of `b` at or after rank `k` that is still
/// continuing, or `0` if the preferences end (sentinel or rank 16) first.
pub open spec fn next_pref_from(b: Ballot, status: Seq<Status>, k: int) -> int
    decreases 16 - k,
{
    if k < 0 || k >= 16 {
        0
    } else if b@[k] == 0 {
        0
    } else if status[b@[k] as int] is Continuing {
        b@[k] as int
    } else {
        next_pref_from(b, status, k + 1)
    }
}

/// The standing after every candidate id in `[i, 256)` whose pile holds at
/// least `quota` ballots has been marked elected.
pub open spec fn elect_from(piles: Seq<Seq<u32>>, status: Seq<Status>, quota: int, i: int) -> Seq<
    Status,
>
    decreases slots() - i,
{
    if i < 0 || i >= slots() {
        status
    } else {
        let status1 = if piles[i].len() >= quota {
            status.update(i, Status::Elected)
        } else {
            status
        };
        elect_from(piles, status1, quota, i + 1)
    }
}

/// Scans candidate ids `[i, 256)` and returns the id of the best elimination
/// candidate found so far, starting from `best` (`0` meaning none yet): the
/// over-quota candidate not yet in `taken` with the smallest pile, earliest
/// id winning ties.
pub open spec fn min_over_from(
    piles: Seq<Seq<u32>>,
    quota: int,
    taken: Seq<int>,
    i: int,
    best: int,
) -> int
    decreases slots() - i,
{
    if i < 1 || i >= slots() {
        best
    } else {
        let better = piles[i].len() > quota && !taken.contains(i) && (best == 0 || piles[i].len()
            < piles[best].len());
        min_over_from(piles, quota, taken, i + 1, if better {
            i
        } else {
            best
        })
    }
}

/// The first `k` rounds of picking the smallest over-quota pile not yet
/// picked: the order in which surpluses are transferred, smallest first.
pub open spec fn order_rec(piles: Seq<Seq<u32>>, quota: int, k: nat) -> Seq<int>
    decreases k,
{
    if k == 0 {
        Seq::empty()
    } else {
        let prev = order_rec(piles, quota, (k - 1) as nat);
        let m = min_over_from(piles, quota, prev, 1, 0);
        if m == 0 {
            prev
        } else {
            prev.push(m)
        }
    }
}

/// All over-quota candidates in ascending order of pile size (ties by id),
/// so the largest surplus is resolved last.
pub open spec fn surplus_order(piles: Seq<Seq<u32>>, quota: int) -> Seq<int> {
    order_rec(piles, quota, (slots() - 1) as nat)
}

/// The state of one stepped-sampling pass over a winner's pile.
pub ghost struct ScanModel {
    /// The piles as they stand mid-pass (the winner's own slot is empty
    /// while its snapshot is scanned).
    pub piles: Seq<Seq<u32>>,
    /// The standings as they stand mid-pass.
    pub status: Seq<Status>,
    /// Which positions of the scanned pile snapshot have been moved.
    pub removed: Seq<bool>,
    /// How many ballots have been moved so far.
    pub moved: int,
}

/// One sampling visit at position `j` of the pile snapshot `pile0`: an
/// unmoved ballot goes to its next continuing preference (the sentinel pile
/// if none remains), and a recipient reaching the quota is elected at once.
pub open spec fn scan_visit(
    ballots: Seq<Ballot>,
    quota: int,
    pile0: Seq<u32>,
    m: ScanModel,
    j: int,
) -> ScanModel {
    if m.removed[j] {
        m
    } else {
        let bi = pile0[j];
        let rec = next_pref_from(ballots[bi as int], m.status, 1);
        let piles1 = m.piles.update(rec, m.piles[rec].push(bi));
        let status1 = if rec != 0 && piles1[rec].len() >= quota {
            m.status.update(rec, Status::Elected)
        } else {
            m.status
        };
        ScanModel {
            piles: piles1,
            status: status1,
            removed: m.removed.update(j, true),
            moved: m.moved + 1,
        }
    }
}

/// One wrap of the stepped scan: visits `j`, `j + step`, ... until the scan
/// passes the end of the pile or `surplus` ballots have been moved.
pub open spec fn scan_row(
    ballots: Seq<Ballot>,
    quota: int,
    pile0: Seq<u32>,
    m: ScanModel,
    j: int,
    step: int,
    surplus: int,
) -> ScanModel
    decreases vstd::math::max(pile0.len() - j, 0),
        when step >= 1 && j >= 0
{
    if j >= pile0.len() || m.moved >= surplus {
        m
    } else {
        scan_row(ballots, quota, pile0, scan_visit(ballots, quota, pile0, m, j), j + step, step, surplus)
    }
}

/// The whole stepped scan: wraps start at offsets `start`, `start + 1`, ...
/// until `surplus` ballots have been moved or the offsets run out.
pub open spec fn scan_all(
    ballots: Seq<Ballot>,
    quota: int,
    pile0: Seq<u32>,
    m: ScanModel,
    start: int,
    step: int,
    surplus: int,
) -> ScanModel
    decreases pile0.len() - start,
        when step >= 1 && start >= 0
{
    if start >= pile0.len() || m.moved >= surplus {
        m
    } else {
        let m1 = scan_row(ballots, quota, pile0, m, start, step, surplus);
        scan_all(ballots, quota, pile0, m1, start + 1, step, surplus)
    }
}

/// The first `j` positions of `pile0` that the scan did not move, in their
/// original order: what remains of a winner's pile after the transfer.
pub open spec fn keep_unremoved(pile0: Seq<u32>, removed: Seq<bool>, j: int) -> Seq<u32>
    decreases j,
{
    if j <= 0 {
        Seq::empty()
    } else {
        let prev = keep_unremoved(pile0, removed, j - 1);
        if removed[j - 1] {
            prev
        } else {
            prev.push(pile0[j - 1])
        }
    }
}

/// The integer sampling step for a pile of `len` ballots with `surplus`
/// over quota: `len / surplus` rounded half away from zero.
pub open spec fn spec_step(len: int, surplus: int) -> int {
    (2 * len + surplus) / (2 * surplus)
}

/// The piles and standings after candidate `c`'s surplus has been
/// transferred by stepped sampling. Piles not over quota are untouched.
pub open spec fn spec_surplus_one(
    ballots: Seq<Ballot>,
    quota: int,
    piles: Seq<Seq<u32>>,
    status: Seq<Status>,
    c: int,
) -> (Seq<Seq<u32>>, Seq<Status>) {
    let pile0 = piles[c];
    let len = pile0.len() as int;
    let surplus = len - quota;
    if surplus <= 0 {
        (piles, status)
    } else {
        let step = spec_step(len, surplus);
        let m0 = ScanModel {
            piles: piles.update(c, Seq::empty()),
            status: status,
            removed: Seq::new(pile0.len(), |i: int| false),
            moved: 0,
        };
        let m1 = scan_all(ballots, quota, pile0, m0, step - 1, step, surplus);
        (m1.piles.update(c, keep_unremoved(pile0, m1.removed, len)), m1.status)
    }
}

/// The piles and standings after the surpluses of `order[k..]` have been
/// transferred in order.
pub open spec fn surplus_seq(
    ballots: Seq<Ballot>,
    quota: int,
    piles: Seq<Seq<u32>>,
    status: Seq<Status>,
    order: Seq<int>,
    k: int,
) -> (Seq<Seq<u32>>, Seq<Status>)
    decreases order.len() - k,
{
    if k < 0 || k >= order.len() {
        (piles, status)
    } else {
        let r = spec_surplus_one(ballots, quota, piles, status, order[k]);
        surplus_seq(ballots, quota, r.0, r.1, order, k + 1)
    }
}

/// The standing after every candidate id in `[i, 256)` with an empty pile
/// has been eliminated (no first-preference support survives the surplus
/// phase with an empty pile).
pub open spec fn zero_elim_from(piles: Seq<Seq<u32>>, status: Seq<Status>, i: int) -> Seq<Status>
    decreases slots() - i,
{
    if i < 0 || i >= slots() {
        status
    } else {
        let status1 = if piles[i].len() == 0 {
            status.update(i, Status::Eliminated)
        } else {
            status
        };
        zero_elim_from(piles, status1, i + 1)
    }
}

/// True when the history rows `[0, r)` of `totals`, scanned from the most
/// recent backward, break the tie in favour of eliminating `a` rather than
/// `b`: `a` had strictly fewer votes in the most recent round where the two
/// differ. All rounds equal keeps `b`.
pub open spec fn hist_prefers(totals: Seq<Seq<int>>, a: int, b: int, r: int) -> bool
    decreases r,
{
    if r <= 0 {
        false
    } else if totals[r - 1][a] < totals[r - 1][b] {
        true
    } else if totals[r - 1][a] > totals[r - 1][b] {
        false
    } else {
        hist_prefers(totals, a, b, r - 1)
    }
}

/// Scans candidate ids `[i, 256)` for the elimination target, starting from
/// the best found so far (`0` meaning none yet): the continuing candidate
/// with the smallest pile, historical rounds breaking ties. When all
/// recorded history is tied too, the earliest-indexed candidate wins the
/// tie and survives: the later id becomes the target.
pub open spec fn select_from(
    piles: Seq<Seq<u32>>,
    status: Seq<Status>,
    totals: Seq<Seq<int>>,
    i: int,
    best: int,
) -> int
    decreases slots() - i,
{
    if i < 1 || i >= slots() {
        best
    } else {
        let better = status[i] is Continuing && (best == 0 || piles[i].len() < piles[best].len()
            || (piles[i].len() == piles[best].len() && !hist_prefers(
            totals,
            best,
            i,
            totals.len() as int,
        )));
        select_from(piles, status, totals, i + 1, if better {
            i
        } else {
            best
        })
    }
}

/// The piles and standings after the ballots `pile[k..]` of an eliminated
/// candidate have flowed to their next continuing preference (the sentinel
/// pile when none remains); a real recipient reaching the quota is elected
/// at once.
pub open spec fn redistribute(
    ballots: Seq<Ballot>,
    quota: int,
    piles: Seq<Seq<u32>>,
    status: Seq<Status>,
    pile: Seq<u32>,
    k: int,
) -> (Seq<Seq<u32>>, Seq<Status>)
    decreases pile.len() - k,
{
    if k < 0 || k >= pile.len() {
        (piles, status)
    } else {
        let bi = pile[k];
        let rec = next_pref_from(ballots[bi as int], status, 0);
        let piles1 = piles.update(rec, piles[rec].push(bi));
        let status1 = if rec != 0 && piles1[rec].len() >= quota {
            status.update(rec, Status::Elected)
        } else {
            status
        };
        redistribute(ballots, quota, piles1, status1, pile, k + 1)
    }
}

/// One elimination round: record the pile sizes, pick the elimination
/// target, eliminate it and redistribute its pile. With no continuing
/// candidate left only the history row is recorded.
pub open spec fn spec_elim_round(ballots: Seq<Ballot>, quota: int, m: TallyModel) -> TallyModel {
    let totals1 = m.totals.push(pile_sizes(m.piles));
    let target = select_from(m.piles, m.status, totals1, 1, 0);
    if target == 0 {
        TallyModel { piles: m.piles, status: m.status, totals: totals1 }
    } else {
        let status1 = m.status.update(target, Status::Eliminated);
        let pile = m.piles[target];
        let piles1 = m.piles.update(target, Seq::empty());
        let r = redistribute(ballots, quota, piles1, status1, pile, 0);
        TallyModel { piles: r.0, status: r.1, totals: totals1 }
    }
}

/// How many candidate ids in `[i, 256)` are not eliminated.
pub open spec fn count_nonelim(status: Seq<Status>, i: int) -> int
    decreases slots() - i,
{
    if i < 0 || i >= slots() {
        0
    } else {
        (if status[i] is Eliminated {
            0int
        } else {
            1int
        }) + count_nonelim(status, i + 1)
    }
}

/// How many candidate ids in `[i, 256)` are continuing.
pub open spec fn count_cont(status: Seq<Status>, i: int) -> int
    decreases slots() - i,
{
    if i < 0 || i >= slots() {
        0
    } else {
        (if status[i] is Continuing {
            1int
        } else {
            0int
        }) + count_cont(status, i + 1)
    }
}

/// True when the elimination loop is finished: no more candidates remain
/// than there are seats, or no continuing real candidate is left to
/// eliminate (the sentinel is never a target).
pub open spec fn elim_done(status: Seq<Status>, seats: int) -> bool {
    count_nonelim(status, 0) <= seats || count_cont(status, 1) == 0
}

/// The elimination loop: up to `fuel` rounds of eliminating the weakest
/// continuing candidate, until the field is down to the seat count. Every
/// round retires one candidate, so fuel 256 always reaches the fixed point.
pub open spec fn spec_elim_loop(
    ballots: Seq<Ballot>,
    quota: int,
    seats: int,
    m: TallyModel,
    fuel: nat,
) -> TallyModel
    decreases fuel,
{
    if fuel == 0 || elim_done(m.status, seats) {
        m
    } else {
        spec_elim_loop(ballots, quota, seats, spec_elim_round(ballots, quota, m), (fuel - 1) as nat)
    }
}

/// The ids in `[0, i)` whose status is not `Eliminated`, ascending: the
/// winners under the all-survivors rule.
pub open spec fn survivors_prefix(status: Seq<Status>, i: int) -> Seq<u8>
    decreases i,
{
    if i <= 0 {
        Seq::empty()
    } else {
        let prev = survivors_prefix(status, i - 1);
        if !(status[i - 1] is Eliminated) {
            prev.push((i - 1) as u8)
        } else {
            prev
        }
    }
}

/// The ids in `[0, i)` whose status is `Elected`, ascending: the winners
/// under the quota-respecting rule.
pub open spec fn elected_prefix(status: Seq<Status>, i: int) -> Seq<u8>
    decreases i,
{
    if i <= 0 {
        Seq::empty()
    } else {
        let prev = elected_prefix(status, i - 1);
        if status[i - 1] is Elected {
            prev.push((i - 1) as u8)
        } else {
            prev
        }
    }
}

/// Well-formed piles: one pile per candidate id, and every entry is the
/// index of one of the `n` ballots.
pub open spec fn piles_wf(piles: Seq<Seq<u32>>, n: int) -> bool {
    &&& piles.len() == slots()
    &&& forall|c: int, j: int|
        0 <= c < slots() && 0 <= j < piles[c].len() ==> #[trigger] piles[c][j] < n
}

/// Well-formed history: every recorded row has one entry per candidate id.
pub open spec fn totals_wf(totals: Seq<Seq<int>>) -> bool {
    forall|r: int| 0 <= r < totals.len() ==> #[trigger] totals[r].len() == slots()
}

/// The complete state of the count at termination.
pub open spec fn spec_final_state(seats: int, ballots: Seq<Ballot>) -> TallyModel {
    let quota = spec_droop_quota(ballots.len() as int, seats);
    let piles0 = assign_first_prefs(ballots, ballots.len() as int);
    let totals0 = seq![pile_sizes(piles0)];
    let status1 = elect_from(piles0, init_status(), quota, 1);
    let order = surplus_order(piles0, quota);
    let r = surplus_seq(ballots, quota, piles0, status1, order, 0);
    let status3 = zero_elim_from(r.0, r.1, 1);
    let m3 = TallyModel { piles: r.0, status: status3, totals: totals0 };
    spec_elim_loop(ballots, quota, seats, m3, slots() as nat)
}

/// What the count returns: the sorted ids of all candidates left standing
/// (elected or still continuing) at termination.
pub open spec fn spec_tabulate(seats: int, ballots: Seq<Ballot>) -> Seq<u8> {
    survivors_prefix(spec_final_state(seats, ballots).status, slots())
}

/// The sorted ids of the candidates elected by quota at termination: the
/// stricter of the two winner rules.
pub open spec fn spec_tabulate_elected(seats: int, ballots: Seq<Ballot>) -> Seq<u8> {
    elected_prefix(spec_final_state(seats, ballots).status, slots())
}


/// The next continuing preference is the sentinel or a continuing candidate,
/// and always a valid id.
pub proof fn lemma_next_pref_cont(b: Ballot, status: Seq<Status>, k: int)
    ensures
        0 <= next_pref_from(b, status, k) < slots(),
        next_pref_from(b, status, k) == 0 || status[next_pref_from(b, status, k)] is Continuing,
    decreases 16 - k,
{
    if k < 0 || k >= 16 {
    } else if b@[k] == 0 {
    } else if status[b@[k] as int] is Continuing {
    } else {
        lemma_next_pref_cont(b, status, k + 1);
    }
}

/// Counts lie between 0 and the number of slots scanned.
pub proof fn lemma_count_bounds(status: Seq<Status>, i: int)
    requires
        0 <= i <= slots(),
    ensures
        0 <= count_nonelim(status, i) <= slots() - i,
        0 <= count_cont(status, i) <= slots() - i,
    decreases slots() - i,
{
    if i < 0 || i >= slots() {
    } else {
        lemma_count_bounds(status, i + 1);
    }
}

/// A positive continuing count names a continuing candidate.
pub proof fn lemma_count_cont_exists(status: Seq<Status>, i: int)
    requires
        count_cont(status, i) > 0,
    ensures
        exists|k: int| i <= k < slots() && status[k] is Continuing,
    decreases slots() - i,
{
    if i < 0 || i >= slots() {
    } else if status[i] is Continuing {
    } else {
        lemma_count_cont_exists(status, i + 1);
        let k = choose|k: int| i + 1 <= k < slots() && status[k] is Continuing;
        assert(i <= k < slots() && status[k] is Continuing);
    }
}

/// Two standings that eliminate exactly the same ids have the same
/// not-eliminated count.
pub proof fn lemma_count_same_elim(s1: Seq<Status>, s2: Seq<Status>, i: int)
    requires
        forall|k: int| 0 <= k < slots() ==> ((#[trigger] s1[k]) is Eliminated <==> s2[k] is Eliminated),
    ensures
        count_nonelim(s1, i) == count_nonelim(s2, i),
    decreases slots() - i,
{
    if i < 0 || i >= slots() {
    } else {
        lemma_count_same_elim(s1, s2, i + 1);
    }
}

/// Eliminating one standing candidate lowers the not-eliminated count by
/// exactly one.
pub proof fn lemma_count_elim_target(status: Seq<Status>, t: int, i: int)
    requires
        status.len() == slots(),
        0 <= t < slots(),
        !(status[t] is Eliminated),
    ensures
        0 <= i <= t ==> count_nonelim(status.update(t, Status::Eliminated), i) == count_nonelim(
            status,
            i,
        ) - 1,
        i > t || i < 0 ==> count_nonelim(status.update(t, Status::Eliminated), i) == count_nonelim(
            status,
            i,
        ),
    decreases slots() - i,
{
    if i < 0 || i >= slots() {
    } else {
        lemma_count_elim_target(status, t, i + 1);
    }
}

/// Redistribution only promotes continuing candidates to elected; it never
/// changes who is eliminated, and the sentinel's standing is untouched.
pub proof fn lemma_redistribute_status(
    ballots: Seq<Ballot>,
    quota: int,
    piles: Seq<Seq<u32>>,
    status: Seq<Status>,
    pile: Seq<u32>,
    k: int,
)
    requires
        status.len() == slots(),
    ensures
        redistribute(ballots, quota, piles, status, pile, k).1.len() == slots(),
        forall|i: int|
            0 <= i < slots() ==> (#[trigger] redistribute(ballots, quota, piles, status, pile, k).1[i]
                == status[i] || (status[i] is Continuing && redistribute(
                ballots,
                quota,
                piles,
                status,
                pile,
                k,
            ).1[i] is Elected)),
    decreases pile.len() - k,
{
    if k < 0 || k >= pile.len() {
    } else {
        let bi = pile[k];
        let rec = next_pref_from(ballots[bi as int], status, 0);
        lemma_next_pref_cont(ballots[bi as int], status, 0);
        let piles1 = piles.update(rec, piles[rec].push(bi));
        let status1 = if rec != 0 && piles1[rec].len() >= quota {
            status.update(rec, Status::Elected)
        } else {
            status
        };
        lemma_redistribute_status(ballots, quota, piles1, status1, pile, k + 1);
    }
}

/// The elimination target scan yields a continuing candidate when one
/// exists, and only then.
pub proof fn lemma_select_from_props(
    piles: Seq<Seq<u32>>,
    status: Seq<Status>,
    totals: Seq<Seq<int>>,
    i: int,
    best: int,
)
    requires
        1 <= i,
        0 <= best < slots(),
        best != 0 ==> status[best] is Continuing,
    ensures
        0 <= select_from(piles, status, totals, i, best) < slots(),
        select_from(piles, status, totals, i, best) != 0 ==> status[select_from(
            piles,
            status,
            totals,
            i,
            best,
        )] is Continuing,
        select_from(piles, status, totals, i, best) == 0 ==> best == 0 && forall|k: int|
            i <= k < slots() ==> !((#[trigger] status[k]) is Continuing),
    decreases slots() - i,
{
    if i < 1 || i >= slots() {
    } else {
        let better = status[i] is Continuing && (best == 0 || piles[i].len() < piles[best].len()
            || (piles[i].len() == piles[best].len() && !hist_prefers(
            totals,
            best,
            i,
            totals.len() as int,
        )));
        lemma_select_from_props(piles, status, totals, i + 1, if better {
            i
        } else {
            best
        });
    }
}

} // verus!

//! The outcome-sensitivity aggregator: runs the count once as-is, then many
//! times under randomized ballot orderings, and groups the distinct winner
//! sets that appear.
use crate::engine::{tabulate, WinnerRule};
use crate::errors::ConfigError;
use crate::model::{spec_tabulate, Ballot};
use crate::strutil::{find_name, name_index, str_eq};
use rand::seq::SliceRandom;
use vstd::prelude::*;

verus! {

/// The groups of a ballot set, seen as plain sequences.
pub open spec fn gview(gs: Seq<Vec<Ballot>>) -> Seq<Seq<Ballot>> {
    gs.map_values(|g: Vec<Ballot>| g@)
}

/// The ballots of the first `k` groups, in group order.
pub open spec fn flatten_upto(gs: Seq<Seq<Ballot>>, k: int) -> Seq<Ballot>
    decreases k,
{
    if k <= 0 {
        Seq::empty()
    } else {
        flatten_upto(gs, k - 1) + gs[k - 1]
    }
}

/// The total number of ballots in the first `k` groups.
pub open spec fn total_len(gs: Seq<Seq<Ballot>>, k: int) -> int
    decreases k,
{
    if k <= 0 {
        0
    } else {
        total_len(gs, k - 1) + gs[k - 1].len()
    }
}

/// Flattening `k` groups yields exactly their total number of ballots.
pub proof fn lemma_flatten_len(gs: Seq<Seq<Ballot>>, k: int)
    ensures
        flatten_upto(gs, k).len() == total_len(gs, k),
        total_len(gs, k) >= 0,
    decreases k,
{
    if k <= 0 {
    } else {
        lemma_flatten_len(gs, k - 1);
    }
}

/// Equal group views flatten to equal ballot sequences.
pub proof fn lemma_total_len_pointwise(gs1: Seq<Seq<Ballot>>, gs2: Seq<Seq<Ballot>>, k: int)
    requires
        forall|i: int| 0 <= i < k ==> #[trigger] gs1[i].len() == gs2[i].len(),
    ensures
        total_len(gs1, k) == total_len(gs2, k),
    decreases k,
{
    if k <= 0 {
    } else {
        lemma_total_len_pointwise(gs1, gs2, k - 1);
    }
}

/// Groups with pointwise-equal ballot bags flatten to the same ballot bag.
pub proof fn lemma_flatten_multiset_pointwise(gs1: Seq<Seq<Ballot>>, gs2: Seq<Seq<Ballot>>, k: int)
    requires
        forall|i: int|
            0 <= i < k ==> (#[trigger] gs1[i]).to_multiset() == gs2[i].to_multiset(),
    ensures
        flatten_upto(gs1, k).to_multiset() == flatten_upto(gs2, k).to_multiset(),
    decreases k,
{
    if k <= 0 {
    } else {
        lemma_flatten_multiset_pointwise(gs1, gs2, k - 1);
        vstd::seq_lib::lemma_multiset_commutative(flatten_upto(gs1, k - 1), gs1[k - 1]);
        vstd::seq_lib::lemma_multiset_commutative(flatten_upto(gs2, k - 1), gs2[k - 1]);
        assert(flatten_upto(gs1, k).to_multiset() =~= flatten_upto(gs2, k).to_multiset());
    }
}

/// A winner set seen in perturbed runs, with how often it occurred.
pub struct OutcomeCount {
    /// The sorted winner ids of the alternate outcome.
    pub outcome: Vec<u8>,
    /// How many perturbed runs produced it.
    pub count: usize,
}

/// A well-formed alternate-outcome table: no entry repeats the baseline, no
/// two entries repeat each other, and every entry was seen at least once.
pub open spec fn table_wf(entries: Seq<OutcomeCount>, baseline: Seq<u8>) -> bool {
    &&& forall|i: int| 0 <= i < entries.len() ==> (#[trigger] entries[i].outcome@) != baseline
    &&& forall|i: int| 0 <= i < entries.len() ==> (#[trigger] entries[i].count) >= 1
    &&& forall|i: int, j: int|
        #![trigger entries[i].outcome, entries[j].outcome]
        0 <= i < j < entries.len() ==> entries[i].outcome@ != entries[j].outcome@
}

/// The alternate frequencies of the first `k` entries, added up.
pub open spec fn sum_counts(entries: Seq<OutcomeCount>, k: int) -> int
    decreases k,
{
    if k <= 0 {
        0
    } else {
        sum_counts(entries, k - 1) + entries[k - 1].count
    }
}

/// Candidate `x` appears in every recorded alternate outcome.
pub open spec fn in_all_outcomes(x: u8, entries: Seq<OutcomeCount>) -> bool {
    forall|i: int| 0 <= i < entries.len() ==> (#[trigger] entries[i].outcome)@.contains(x)
}

/// The baseline winners among the first `i` that appear in every alternate
/// outcome: the undefeated candidates.
pub open spec fn undefeated_prefix(baseline: Seq<u8>, entries: Seq<OutcomeCount>, i: int) -> Seq<
    u8,
>
    decreases i,
{
    if i <= 0 {
        Seq::empty()
    } else {
        let prev = undefeated_prefix(baseline, entries, i - 1);
        if in_all_outcomes(baseline[i - 1], entries) {
            prev.push(baseline[i - 1])
        } else {
            prev
        }
    }
}

/// Entrywise-equal counts add up to the same totals.
proof fn lemma_sum_counts_pointwise(e1: Seq<OutcomeCount>, e2: Seq<OutcomeCount>, k: int)
    requires
        forall|i: int| 0 <= i < k ==> #[trigger] e1[i].count == e2[i].count,
    ensures
        sum_counts(e1, k) == sum_counts(e2, k),
    decreases k,
{
    if k <= 0 {
    } else {
        lemma_sum_counts_pointwise(e1, e2, k - 1);
    }
}

/// Prefix sums of a well-formed table never decrease.
proof fn lemma_sum_counts_mono(entries: Seq<OutcomeCount>, i: int, j: int)
    requires
        i <= j,
    ensures
        sum_counts(entries, i) <= sum_counts(entries, j),
    decreases j,
{
    if j <= 0 || j <= i {
    } else {
        lemma_sum_counts_mono(entries, i, j - 1);
    }
}

/// Replacing one entry moves the total by the difference of the counts.
proof fn lemma_sum_counts_update(entries: Seq<OutcomeCount>, i: int, e: OutcomeCount, k: int)
    requires
        0 <= i < entries.len(),
        k <= entries.len(),
    ensures
        k <= i ==> sum_counts(entries.update(i, e), k) == sum_counts(entries, k),
        i < k ==> sum_counts(entries.update(i, e), k) == sum_counts(entries, k)
            - entries[i].count + e.count,
    decreases k,
{
    if k <= 0 {
    } else {
        lemma_sum_counts_update(entries, i, e, k - 1);
    }
}

/// One entry's count never exceeds the total.
proof fn lemma_sum_counts_entry(entries: Seq<OutcomeCount>, i: int, k: int)
    requires
        0 <= i < k <= entries.len(),
    ensures
        entries[i].count <= sum_counts(entries, k),
    decreases k,
{
    if k <= i + 1 {
        lemma_sum_counts_mono(entries, 0, i);
    } else {
        lemma_sum_counts_entry(entries, i, k - 1);
    }
}

/// Every undefeated candidate is a baseline winner.
proof fn lemma_undefeated_subset(baseline: Seq<u8>, entries: Seq<OutcomeCount>, i: int)
    requires
        i <= baseline.len(),
    ensures
        forall|k: int|
            0 <= k < undefeated_prefix(baseline, entries, i).len() ==> baseline.contains(
                #[trigger] undefeated_prefix(baseline, entries, i)[k],
            ),
    decreases i,
{
    if i <= 0 {
    } else {
        lemma_undefeated_subset(baseline, entries, i - 1);
        let prev = undefeated_prefix(baseline, entries, i - 1);
        let cur = undefeated_prefix(baseline, entries, i);
        if in_all_outcomes(baseline[i - 1], entries) {
            assert forall|k: int| 0 <= k < cur.len() implies baseline.contains(cur[k]) by {
                if k < prev.len() {
                    assert(cur[k] == prev[k]);
                } else {
                    assert(cur[k] == baseline[i - 1]);
                    assert(baseline.contains(baseline[i - 1]));
                }
            }
        }
    }
}

/// A winner set explained by a reordering of the given ballots: some ballot
/// sequence with the same length and the same bag of ballots tabulates to
/// exactly this outcome under the same seat count.
pub open spec fn outcome_of_reordering(outcome: Seq<u8>, seats: int, flat: Seq<Ballot>) -> bool {
    exists|bs: Seq<Ballot>|
        bs.len() == flat.len() && #[trigger] bs.to_multiset() == flat.to_multiset() && outcome
            == spec_tabulate(seats, bs)
}

/// What the sensitivity analysis found: the baseline winner set, every
/// distinct alternate winner set with its frequency, and the candidates that
/// won in the baseline and in every alternate.
pub struct Analysis {
    /// The winners of the unperturbed run.
    pub baseline: Vec<u8>,
    /// The distinct winner sets that differed from the baseline, each with
    /// its frequency. The baseline's own implied count is the iteration
    /// count minus these.
    pub alternates: Vec<OutcomeCount>,
    /// The baseline winners present in every alternate outcome.
    pub undefeated: Vec<u8>,
    /// How many perturbed runs were made.
    pub iterations: usize,
}

impl Analysis {
    /// A well-formed analysis: the table is well-formed, its frequencies
    /// fit in the iteration count, and the undefeated set is exactly the
    /// baseline filtered by presence in every alternate outcome.
    pub open spec fn wf(&self) -> bool {
        &&& table_wf(self.alternates@, self.baseline@)
        &&& 0 <= sum_counts(self.alternates@, self.alternates@.len() as int) <= self.iterations
        &&& self.undefeated@ == undefeated_prefix(
            self.baseline@,
            self.alternates@,
            self.baseline@.len() as int,
        )
    }

    /// How often the baseline outcome itself occurred among the perturbed
    /// runs: the iterations not claimed by any alternate outcome. Together
    /// with `sum_counts` this always adds back up to `iterations`.
    pub fn baseline_count(&self) -> (r: usize)
        requires
            self.wf(),
        ensures
            r + sum_counts(self.alternates@, self.alternates@.len() as int) == self.iterations,
    {
        let s = self.alternates_total();
        self.iterations - s
    }

    /// The alternate frequencies added up.
    #[verifier::loop_isolation(false)]
    pub fn alternates_total(&self) -> (r: usize)
        requires
            self.wf(),
        ensures
            r == sum_counts(self.alternates@, self.alternates@.len() as int),
    {
        let mut acc: usize = 0;
        let n = self.alternates.len();
        for i in 0..n
            invariant
                acc == sum_counts(self.alternates@, i as int),
                acc <= self.iterations,
        {
            proof {
                lemma_sum_counts_mono(self.alternates@, i + 1, n as int);
            }
            acc = acc + self.alternates[i].count;
        }
        acc
    }
}

/// Aggregator consistency: every undefeated candidate is a baseline winner.
/// (That the baseline count and the alternate frequencies add up to the
/// iteration count is the contract of `Analysis::baseline_count`.)
pub proof fn lemma_undefeated_are_baseline_winners(a: Analysis)
    requires
        a.wf(),
    ensures
        forall|k: int|
            0 <= k < a.undefeated@.len() ==> a.baseline@.contains(#[trigger] a.undefeated@[k]),
{
    lemma_undefeated_subset(a.baseline@, a.alternates@, a.baseline@.len() as int);
}

/// Relies on rand's `SliceRandom::shuffle` with `thread_rng`: an in-place
/// permutation of the groups, chosen at random. A permutation keeps every
/// group (the multiset of group contents), and therefore the group count,
/// the total ballot count, and the bag of all ballots across the groups.
#[verifier::external_body]
fn shuffle_groups(v: &mut Vec<Vec<Ballot>>)
    ensures
        final(v)@.len() == old(v)@.len(),
        gview(final(v)@).to_multiset() == gview(old(v)@).to_multiset(),
        total_len(gview(final(v)@), final(v)@.len() as int) == total_len(
            gview(old(v)@),
            old(v)@.len() as int,
        ),
        flatten_upto(gview(final(v)@), final(v)@.len() as int).to_multiset() == flatten_upto(
            gview(old(v)@),
            old(v)@.len() as int,
        ).to_multiset(),
{
    v.shuffle(&mut rand::thread_rng());
}

/// Relies on rand's `SliceRandom::shuffle` with `thread_rng`: an in-place
/// permutation of the ballots of one group, chosen at random. A permutation
/// keeps the multiset of ballots and the group's size.
#[verifier::external_body]
fn shuffle_ballots(v: &mut Vec<Ballot>)
    ensures
        final(v)@.len() == old(v)@.len(),
        final(v)@.to_multiset() == old(v)@.to_multiset(),
{
    v.shuffle(&mut rand::thread_rng());
}

/// Copies one group of ballots.
#[verifier::loop_isolation(false)]
fn clone_ballots(v: &Vec<Ballot>) -> (r: Vec<Ballot>)
    ensures
        r@ == v@,
{
    let mut r: Vec<Ballot> = Vec::new();
    let n = v.len();
    for i in 0..n
        invariant
            r@ == v@.take(i as int),
    {
        r.push(v[i]);
        proof {
            assert(r@ =~= v@.take(i + 1));
        }
    }
    proof {
        assert(v@.take(n as int) =~= v@);
    }
    r
}

/// Copies a grouped ballot set.
#[verifier::loop_isolation(false)]
fn clone_groups(gs: &Vec<Vec<Ballot>>) -> (r: Vec<Vec<Ballot>>)
    ensures
        r@.len() == gs@.len(),
        gview(r@) == gview(gs@),
{
    let mut r: Vec<Vec<Ballot>> = Vec::new();
    let n = gs.len();
    for i in 0..n
        invariant
            r@.len() == i,
            forall|k: int| 0 <= k < i ==> #[trigger] r@[k]@ == gs@[k]@,
    {
        r.push(clone_ballots(&gs[i]));
    }
    proof {
        assert(gview(r@) =~= gview(gs@));
    }
    r
}

/// All groups in order, as one flat ballot sequence.
#[verifier::loop_isolation(false)]
pub fn flatten_groups(gs: &Vec<Vec<Ballot>>) -> (r: Vec<Ballot>)
    ensures
        r@ == flatten_upto(gview(gs@), gs@.len() as int),
{
    let mut r: Vec<Ballot> = Vec::new();
    let n = gs.len();
    for i in 0..n
        invariant
            r@ == flatten_upto(gview(gs@), i as int),
    {
        let m = gs[i].len();
        for j in 0..m
            invariant
                r@ == flatten_upto(gview(gs@), i as int) + gs@[i as int]@.take(j as int),
        {
            r.push(gs[i][j]);
            proof {
                assert(r@ =~= flatten_upto(gview(gs@), i as int) + gs@[i as int]@.take(j + 1));
            }
        }
        proof {
            assert(gs@[i as int]@.take(gs@[i as int]@.len() as int) =~= gs@[i as int]@);
            assert(r@ =~= flatten_upto(gview(gs@), i + 1));
        }
    }
    r
}

/// Whether two winner sets are the same.
#[verifier::loop_isolation(false)]
fn winners_eq(a: &Vec<u8>, b: &Vec<u8>) -> (r: bool)
    ensures
        r == (a@ == b@),
{
    if a.len() != b.len() {
        proof {
            assert(a@ != b@);
        }
        return false;
    }
    let n = a.len();
    for i in 0..n
        invariant
            a@.len() == b@.len(),
            forall|k: int| 0 <= k < i ==> a@[k] == b@[k],
    {
        if a[i] != b[i] {
            return false;
        }
    }
    proof {
        assert(a@ =~= b@);
    }
    true
}

/// Whether a winner set contains a candidate.
#[verifier::loop_isolation(false)]
fn winners_contain(v: &Vec<u8>, x: u8) -> (r: bool)
    ensures
        r == v@.contains(x),
{
    let n = v.len();
    for i in 0..n
        invariant
            forall|k: int| 0 <= k < i ==> v@[k] != x,
    {
        if v[i] == x {
            return true;
        }
    }
    false
}

/// Whether a candidate appears in every recorded alternate outcome.
#[verifier::loop_isolation(false)]
fn contained_in_all(entries: &Vec<OutcomeCount>, x: u8) -> (r: bool)
    ensures
        r == in_all_outcomes(x, entries@),
{
    let n = entries.len();
    for i in 0..n
        invariant
            forall|k: int| 0 <= k < i ==> (#[trigger] entries@[k].outcome)@.contains(x),
    {
        if !winners_contain(&entries[i].outcome, x) {
            return false;
        }
    }
    true
}

/// Records one alternate outcome: a new entry at count one, or one more for
/// the entry already holding this outcome.
#[verifier::loop_isolation(false)]
fn record_outcome(
    entries: &mut Vec<OutcomeCount>,
    outcome: Vec<u8>,
    Ghost(baseline): Ghost<Seq<u8>>,
)
    requires
        table_wf(old(entries)@, baseline),
        outcome@ != baseline,
        sum_counts(old(entries)@, old(entries)@.len() as int) < usize::MAX,
    ensures
        table_wf(final(entries)@, baseline),
        sum_counts(final(entries)@, final(entries)@.len() as int) == sum_counts(
            old(entries)@,
            old(entries)@.len() as int,
        ) + 1,
        final(entries)@.len() >= old(entries)@.len(),
        forall|k: int|
            0 <= k < old(entries)@.len() ==> (#[trigger] final(entries)@[k].outcome)@
                == old(entries)@[k].outcome@,
        forall|k: int|
            old(entries)@.len() <= k < final(entries)@.len()
                ==> (#[trigger] final(entries)@[k].outcome)@ == outcome@,
{
    let n = entries.len();
    let mut i: usize = 0;
    while i < n
        invariant
            i <= n,
            entries@ == old(entries)@,
            forall|k: int| 0 <= k < i ==> (#[trigger] entries@[k].outcome)@ != outcome@,
        decreases n - i,
    {
        if winners_eq(&entries[i].outcome, &outcome) {
            let c = entries[i].count;
            proof {
                lemma_sum_counts_entry(entries@, i as int, n as int);
            }
            let e = OutcomeCount { outcome, count: c + 1 };
            let ghost before = entries@;
            entries[i] = e;
            proof {
                lemma_sum_counts_update(before, i as int, e, n as int);
            }
            return ;
        }
        i += 1;
    }
    entries.push(OutcomeCount { outcome, count: 1 });
    proof {
        lemma_sum_counts_pointwise(entries@, old(entries)@, old(entries)@.len() as int);
        assert(sum_counts(entries@, entries@.len() as int) == sum_counts(
            old(entries)@,
            old(entries)@.len() as int,
        ) + 1);
    }
}


/// A what-if perturbation: `count` synthetic first-choice ballots for one
/// candidate, added to one precinct group.
#[derive(Debug)]
pub struct ExtraVotes {
    /// How many synthetic ballots to add.
    pub count: usize,
    /// The candidate id the synthetic ballots put first (0 synthesizes
    /// blank, exhausted ballots).
    pub candidate: u8,
    /// The index of the precinct group that receives them.
    pub group: usize,
}

/// A ballot that ranks `c` first and nothing after.
pub open spec fn single_pref_ballot(b: Ballot, c: u8) -> bool {
    b@[0] == c && forall|k: int| 1 <= k < 16 ==> b@[k] == 0
}

/// The candidate id a name stands for: 0 for the exhausted sentinel's
/// display name, one past its position in the candidate list otherwise, and
/// -1 for a name the election does not know.
pub open spec fn spec_candidate_id(names: Seq<String>, name: Seq<char>) -> int {
    if name == "Exhausted"@ {
        0
    } else {
        let i = name_index(names, name, 0);
        if i >= 0 {
            i + 1
        } else {
            -1
        }
    }
}

/// Resolves a what-if request given by names into ids and a group index.
/// An unknown candidate name is reported before an unknown group name, as a
/// distinct error either way.
pub fn resolve_extra(
    candidates: &Vec<String>,
    precints: &Vec<String>,
    count: usize,
    candidate: &str,
    group: &str,
) -> (r: Result<ExtraVotes, ConfigError>)
    requires
        candidates@.len() <= 255,
    ensures
        ({
            let cid = spec_candidate_id(candidates@, candidate@);
            let gid = name_index(precints@, group@, 0);
            match r {
                Ok(e) => cid >= 0 && gid >= 0 && e.candidate as int == cid && e.group as int == gid
                    && e.count == count,
                Err(ConfigError::UnknownCandidate) => cid == -1,
                Err(ConfigError::UnknownPrecinct) => cid >= 0 && gid == -1,
                Err(_) => false,
            }
        }),
{
    let cid: u8 = if str_eq(candidate, "Exhausted") {
        0
    } else {
        match find_name(candidates, candidate) {
            Some(i) => (i + 1) as u8,
            None => {
                return Err(ConfigError::UnknownCandidate);
            },
        }
    };
    let gid = match find_name(precints, group) {
        Some(g) => g,
        None => {
            return Err(ConfigError::UnknownPrecinct);
        },
    };
    Ok(ExtraVotes { count, candidate: cid, group: gid })
}

/// Adds the synthetic first-choice ballots of a what-if request to their
/// precinct group; a group index out of range is an unknown precinct.
#[verifier::loop_isolation(false)]
pub fn add_extra_ballots(groups: &mut Vec<Vec<Ballot>>, extra: &ExtraVotes) -> (r: Result<
    (),
    ConfigError,
>)
    ensures
        (r is Ok) == (extra.group < old(groups)@.len()),
        r is Err ==> final(groups)@ == old(groups)@ && r == Err::<(), ConfigError>(
            ConfigError::UnknownPrecinct,
        ),
        r is Ok ==> ({
            let g = extra.group as int;
            let before = gview(old(groups)@);
            let after = gview(final(groups)@);
            &&& after.len() == before.len()
            &&& forall|i: int| 0 <= i < before.len() && i != g ==> after[i] == before[i]
            &&& after[g].len() == before[g].len() + extra.count
            &&& after[g].take(before[g].len() as int) == before[g]
            &&& forall|k: int|
                before[g].len() <= k < after[g].len() ==> single_pref_ballot(
                    #[trigger] after[g][k],
                    extra.candidate,
                )
        }),
{
    if extra.group >= groups.len() {
        return Err(ConfigError::UnknownPrecinct);
    }
    let mut b: Ballot = [0u8; 16];
    b[0] = extra.candidate;
    let g = extra.group;
    let ghost before = gview(groups@);
    let base = groups[g].len();
    for added in 0..extra.count
        invariant
            extra.group < groups@.len(),
            groups@.len() == before.len(),
            single_pref_ballot(b, extra.candidate),
            base == before[g as int].len(),
            forall|i: int| 0 <= i < before.len() && i != g as int ==> gview(groups@)[i] == before[i],
            gview(groups@)[g as int].len() == base + added,
            gview(groups@)[g as int].take(base as int) == before[g as int],
            forall|k: int|
                base <= k < gview(groups@)[g as int].len() ==> single_pref_ballot(
                    #[trigger] gview(groups@)[g as int][k],
                    extra.candidate,
                ),
    {
        let ghost prevg = gview(groups@)[g as int];
        groups[g].push(b);
        proof {
            assert(gview(groups@)[g as int] =~= prevg.push(b));
            assert(gview(groups@)[g as int].take(base as int) =~= before[g as int]);
        }
    }
    Ok(())
}

/// Runs the count once on the ballot set as given (the baseline), then
/// `iterations` more times under the selected random reorderings, and
/// groups the winner sets that differ from the baseline by frequency. With
/// both reorderings off no perturbation happens, so no alternate outcome is
/// ever reported, whatever the iteration count.
#[verifier::loop_isolation(false)]
pub fn analyze(
    seats: usize,
    groups: &Vec<Vec<Ballot>>,
    iterations: usize,
    shuffle_within: bool,
    shuffle_order: bool,
) -> (r: Analysis)
    requires
        total_len(gview(groups@), groups@.len() as int) < 0x8000_0000,
        seats < usize::MAX,
        total_len(gview(groups@), groups@.len() as int) + seats <= usize::MAX,
    ensures
        r.wf(),
        r.iterations == iterations,
        r.baseline@ == spec_tabulate(
            seats as int,
            flatten_upto(gview(groups@), groups@.len() as int),
        ),
        !shuffle_within && !shuffle_order ==> r.alternates@.len() == 0,
        forall|k: int|
            0 <= k < r.alternates@.len() ==> outcome_of_reordering(
                (#[trigger] r.alternates@[k].outcome)@,
                seats as int,
                flatten_upto(gview(groups@), groups@.len() as int),
            ),
{
    let ghost base_flat = flatten_upto(gview(groups@), groups@.len() as int);
    let flat = flatten_groups(groups);
    proof {
        lemma_flatten_len(gview(groups@), groups@.len() as int);
    }
    let baseline = tabulate(seats, flat.as_slice(), WinnerRule::AllSurvivors);
    let mut alternates: Vec<OutcomeCount> = Vec::new();
    if shuffle_within || shuffle_order {
        let mut it: usize = 0;
        while it < iterations
            invariant
                it <= iterations,
                table_wf(alternates@, baseline@),
                sum_counts(alternates@, alternates@.len() as int) <= it,
                base_flat == flatten_upto(gview(groups@), groups@.len() as int),
                baseline@ == spec_tabulate(seats as int, base_flat),
                forall|k: int|
                    0 <= k < alternates@.len() ==> outcome_of_reordering(
                        (#[trigger] alternates@[k].outcome)@,
                        seats as int,
                        base_flat,
                    ),
            decreases iterations - it,
        {
            let mut gs = clone_groups(groups);
            let ghost t0 = total_len(gview(groups@), groups@.len() as int);
            proof {
                lemma_total_len_pointwise(gview(gs@), gview(groups@), gs@.len() as int);
                assert(flatten_upto(gview(gs@), gs@.len() as int) == base_flat);
            }
            if shuffle_order {
                shuffle_groups(&mut gs);
            }
            if shuffle_within {
                let glen = gs.len();
                for gi in 0..glen
                    invariant
                        gs@.len() == glen,
                        total_len(gview(gs@), gs@.len() as int) == t0,
                        flatten_upto(gview(gs@), gs@.len() as int).to_multiset()
                            == base_flat.to_multiset(),
                {
                    let ghost gv = gview(gs@);
                    shuffle_ballots(&mut gs[gi]);
                    proof {
                        lemma_total_len_pointwise(gview(gs@), gv, gs@.len() as int);
                        lemma_flatten_multiset_pointwise(gview(gs@), gv, gs@.len() as int);
                    }
                }
            }
            let flat2 = flatten_groups(&gs);
            proof {
                lemma_flatten_len(gview(gs@), gs@.len() as int);
                lemma_flatten_len(gview(groups@), groups@.len() as int);
            }
            let result = tabulate(seats, flat2.as_slice(), WinnerRule::AllSurvivors);
            if !winners_eq(&result, &baseline) {
                proof {
                    assert(flat2@.len() == base_flat.len() && flat2@.to_multiset()
                        == base_flat.to_multiset() && result@ == spec_tabulate(
                        seats as int,
                        flat2@,
                    ));
                    assert(outcome_of_reordering(result@, seats as int, base_flat));
                }
                record_outcome(&mut alternates, result, Ghost(baseline@));
            }
            it += 1;
        }
    }
    let mut undefeated: Vec<u8> = Vec::new();
    let blen = baseline.len();
    for i in 0..blen
        invariant
            undefeated@ == undefeated_prefix(baseline@, alternates@, i as int),
    {
        if contained_in_all(&alternates, baseline[i]) {
            undefeated.push(baseline[i]);
        }
    }
    proof {
        lemma_sum_counts_mono(alternates@, 0, alternates@.len() as int);
    }
    Analysis { baseline, alternates, undefeated, iterations }
}

} // verus!

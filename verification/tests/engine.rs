use rcvcounter::{droop_quota, final_pile_sizes, run, tabulate, WinnerRule};


fn ballot(prefs: &[u8]) -> [u8; 16] {
    let mut b = [0u8; 16];
    for (i, &p) in prefs.iter().enumerate() {
        b[i] = p;
    }
    b
}

#[test]
fn droop_quota_values() {
    assert_eq!(droop_quota(10, 2), 4);
    assert_eq!(droop_quota(12, 2), 4);
    assert_eq!(droop_quota(0, 3), 0);
    assert_eq!(droop_quota(7, 1), 4);
}

// Three candidates, two seats, ten ballots: the first-choice leader is
// elected on the quota, the two trailing candidates tie, the later id is
// eliminated, and the loop stops with exactly two candidates standing.
#[test]
fn two_seat_example() {
    let mut ballots = Vec::new();
    for _ in 0..4 {
        ballots.push(ballot(&[1, 2]));
    }
    for _ in 0..3 {
        ballots.push(ballot(&[2, 1]));
    }
    for _ in 0..3 {
        ballots.push(ballot(&[3]));
    }
    let winners = run(2, &ballots, &[], &[]);
    assert_eq!(winners, vec![1, 2]);
    // Exactly as many candidates stand as there are seats.
    assert_eq!(winners.len(), 2);
    // Under the quota-respecting rule only the quota winner holds a seat.
    let elected = tabulate(2, &ballots, WinnerRule::ElectedOnly);
    assert_eq!(elected, vec![1]);
}

// A pile of 12 with quota 4 has surplus 8 and sampling step round(12/8) = 2:
// exactly 8 ballots move, at step-2 offsets wrapping forward, and the
// winner's pile keeps exactly 4. With alternating second choices the
// sampling order decides who benefits.
#[test]
fn surplus_transfer_stepped_sampling() {
    let mut ballots = Vec::new();
    for i in 0..12 {
        if i % 2 == 0 {
            ballots.push(ballot(&[1, 2]));
        } else {
            ballots.push(ballot(&[1, 3]));
        }
    }
    let winners = run(2, &ballots, &[], &[]);
    assert_eq!(winners, vec![1, 3]);
    let sizes = final_pile_sizes(2, &ballots);
    // The over-quota pile is left with exactly quota = 4 ballots.
    assert_eq!(sizes[1], 4);
    // Ballot conservation: every ballot still rests on exactly one pile.
    let total: usize = sizes.iter().sum();
    assert_eq!(total, 12);
}

#[test]
fn ballot_conservation_small_election() {
    let ballots = vec![
        ballot(&[1, 2]),
        ballot(&[1, 2]),
        ballot(&[2]),
        ballot(&[3, 1]),
        ballot(&[3]),
    ];
    let sizes = final_pile_sizes(1, &ballots);
    let total: usize = sizes.iter().sum();
    assert_eq!(total, ballots.len());
}

// A full history tie between two trailing candidates eliminates the later
// id; its ballots elect the earlier one mid-transfer.
#[test]
fn history_tie_eliminates_later_id() {
    let mut ballots = Vec::new();
    for _ in 0..3 {
        ballots.push(ballot(&[1]));
    }
    for _ in 0..2 {
        ballots.push(ballot(&[2]));
    }
    for _ in 0..2 {
        ballots.push(ballot(&[3, 2]));
    }
    // Quota (7+1)/2 = 4. Candidates 2 and 3 tie at two votes with equal
    // history; 3 is eliminated and its transfers lift 2 to the quota.
    let winners = run(1, &ballots, &[], &[]);
    assert_eq!(winners, vec![2]);
}

#[test]
fn empty_ballot_set() {
    let winners = run(2, &[], &[], &[]);
    assert_eq!(winners, Vec::<u8>::new());
}

#[test]
fn blank_ballots_exhaust_immediately() {
    let ballots = vec![ballot(&[]), ballot(&[]), ballot(&[])];
    let winners = run(1, &ballots, &[], &[]);
    assert_eq!(winners, Vec::<u8>::new());
    let sizes = final_pile_sizes(1, &ballots);
    assert_eq!(sizes[0], 3);
}

// Tabulation is a pure function: the same ballots and seat count always
// yield the same winner set, and a byte-identical copy of the ballots
// re-tabulates to the same result.
#[test]
fn tabulation_is_reproducible() {
    let mut ballots = Vec::new();
    for i in 0..30u8 {
        ballots.push(ballot(&[1 + i % 5, 1 + (i / 5) % 5, 1 + (i / 2) % 5]));
    }
    let first = run(3, &ballots, &[], &[]);
    let second = run(3, &ballots, &[], &[]);
    assert_eq!(first, second);

    // Re-serialize the ballots byte for byte and tabulate the copy.
    let bytes: Vec<u8> = ballots.iter().flat_map(|b| b.iter().copied()).collect();
    let reread: Vec<[u8; 16]> = bytes
        .chunks(16)
        .map(|c| {
            let mut b = [0u8; 16];
            b.copy_from_slice(c);
            b
        })
        .collect();
    assert_eq!(reread, ballots);
    let third = run(3, &reread, &[], &[]);
    assert_eq!(first, third);
}

#[test]
fn winners_are_sorted_and_distinct() {
    let mut ballots = Vec::new();
    for i in 0..40u8 {
        ballots.push(ballot(&[1 + i % 7, 1 + (i + 3) % 7]));
    }
    let winners = run(4, &ballots, &[], &[]);
    for w in winners.windows(2) {
        assert!(w[0] < w[1]);
    }
}

#[test]
fn run_matches_all_survivors_rule() {
    let mut ballots = Vec::new();
    for i in 0..20u8 {
        let mut b = [0u8; 16];
        b[0] = 1 + i % 4;
        b[1] = 1 + (i + 1) % 4;
        ballots.push(b);
    }
    assert_eq!(
        run(2, &ballots, &[], &[]),
        tabulate(2, &ballots, WinnerRule::AllSurvivors)
    );
}

use liars::agent::Certificate;
use liars::conf::Child;
use liars::play::Tally;
use liars::playexpert::{
    count_votes, distinct_issuers, interlocutor_count, judge_party, pick_interlocutors, ExpertCollector,
};
use liars::start::{assign_claims, plan_claims};

fn cert(value: bool, pid: u32) -> Certificate {
    Certificate { value, issuer: Child { pid, socket: 3000 + pid as u16 } }
}

fn run_tally(n: usize, votes: &[bool]) -> Vec<Option<bool>> {
    let mut t = Tally::new(n);
    votes.iter().map(|v| t.record(*v)).collect()
}

#[test]
fn honest_ten_agents_decide_true() {
    let claims = plan_claims(true, 10, 0);
    assert_eq!(claims.iter().filter(|c| **c).count(), 10);
    assert_eq!(claims.iter().filter(|c| !**c).count(), 0);
    let steps = run_tally(10, &claims);
    assert_eq!(steps[..4], [None, None, None, None]);
    assert_eq!(steps[4], Some(true));
    assert_eq!(*steps.last().unwrap(), Some(true));
}

#[test]
fn four_liars_of_ten_decide_false_at_fifth_false() {
    let claims = plan_claims(false, 10, 4);
    assert_eq!(claims.iter().filter(|c| **c).count(), 4);
    assert_eq!(claims.iter().filter(|c| !**c).count(), 6);
    let votes = [true, true, true, true, false, false, false, false, false, false];
    let steps = run_tally(10, &votes);
    assert_eq!(steps[..8], [None; 8]);
    assert_eq!(steps[8], Some(false));
    assert_eq!(steps[9], Some(false));
}

#[test]
fn four_liars_of_eleven_decide_true_at_fifth_true() {
    let claims = plan_claims(true, 11, 4);
    assert_eq!(claims.len(), 11);
    assert_eq!(claims.iter().filter(|c| !**c).count(), 4);
    assert_eq!(claims.iter().filter(|c| **c).count(), 7);
    let votes = [false, true, false, true, false, true, false, true, true, true, true];
    let steps = run_tally(11, &votes);
    assert_eq!(steps[..8], [None; 8]);
    assert_eq!(steps[8], Some(true));
}

#[test]
fn simple_poll_finds_truth_in_any_order() {
    for liars in 0..5usize {
        for value in [true, false] {
            let claims = plan_claims(value, 11, liars);
            let mut rev = claims.clone();
            rev.reverse();
            for order in [claims, rev] {
                let steps = run_tally(11, &order);
                assert_eq!(*steps.last().unwrap(), Some(value));
            }
        }
    }
}

#[test]
fn tally_without_enough_votes_stays_undecided() {
    let steps = run_tally(10, &[true, false, true, false]);
    assert_eq!(steps, vec![None; 4]);
}

#[test]
fn assign_claims_puts_liars_first() {
    assert_eq!(assign_claims(true, 5, 2), vec![false, false, true, true, true]);
    assert_eq!(assign_claims(false, 3, 0), vec![false, false, false]);
    assert!(assign_claims(true, 0, 0).is_empty());
}

#[test]
fn plan_claims_shuffles() {
    let unshuffled = assign_claims(true, 20, 10);
    let mut moved = false;
    for _ in 0..20 {
        let claims = plan_claims(true, 20, 10);
        assert_eq!(claims.iter().filter(|c| !**c).count(), 10);
        if claims != unshuffled {
            moved = true;
        }
    }
    assert!(moved);
}

#[test]
fn expert_twenty_agents_quarter_liars() {
    assert_eq!(interlocutor_count(20, 15), 16);
    let honest: Vec<Certificate> = (0..15).map(|i| cert(true, i)).collect();
    assert_eq!(judge_party(20, &honest), Some(true));
    let liars: Vec<Certificate> = (15..20).map(|i| cert(false, i)).collect();
    assert_eq!(judge_party(20, &liars), None);
    let mut collector = ExpertCollector::new(20);
    assert_eq!(collector.offer(&liars), None);
    assert_eq!(collector.offer(&honest), Some(true));
    assert_eq!(collector.offer(&liars), Some(true));
}

#[test]
fn expert_two_agents_clamped() {
    assert_eq!(interlocutor_count(2, 2), 2);
    let picks = pick_interlocutors(2, 2);
    let mut sorted = picks.clone();
    sorted.sort();
    assert_eq!(sorted, vec![0, 1]);
    assert_eq!(judge_party(2, &vec![cert(true, 1)]), Some(true));
    assert_eq!(judge_party(2, &vec![cert(true, 1), cert(true, 2)]), Some(true));
    assert_eq!(judge_party(2, &vec![cert(false, 1)]), Some(false));
}

#[test]
fn interlocutor_count_formula() {
    assert_eq!(interlocutor_count(10, 9), 10);
    assert_eq!(interlocutor_count(10, 3), 4);
    assert_eq!(interlocutor_count(10, 10), 10);
    assert_eq!(interlocutor_count(10, 100), 10);
    assert_eq!(interlocutor_count(0, 0), 0);
}

#[test]
fn pick_interlocutors_distinct_in_range() {
    for _ in 0..20 {
        let picks = pick_interlocutors(10, 7);
        assert_eq!(picks.len(), 8);
        let mut sorted = picks.clone();
        sorted.sort();
        sorted.dedup();
        assert_eq!(sorted.len(), 8);
        assert!(picks.iter().all(|i| *i < 10));
    }
    assert_eq!(pick_interlocutors(5, 100).len(), 5);
    assert!(pick_interlocutors(0, 3).is_empty());
}

#[test]
fn small_party_is_discarded() {
    // 4 of 10 is under the n / 2 pre-filter even though all agree.
    let party: Vec<Certificate> = (0..4).map(|i| cert(true, i)).collect();
    assert_eq!(judge_party(10, &party), None);
}

#[test]
fn split_party_has_no_verdict() {
    // 5 yeas and 5 nays of 11: neither reaches (11 + 1) / 2 = 6.
    let mut party: Vec<Certificate> = (0..5).map(|i| cert(true, i)).collect();
    party.extend((5..10).map(|i| cert(false, i)));
    assert_eq!(judge_party(11, &party), None);
    // Of 10 agents, (10 + 1) / 2 = 5 suffice, and yeas are looked at first.
    assert_eq!(judge_party(10, &party), Some(true));
    party.push(cert(true, 10));
    assert_eq!(judge_party(11, &party), Some(true));
}

#[test]
fn repeated_issuer_counts_once() {
    let stuffed = vec![cert(false, 1), cert(false, 1), cert(false, 1), cert(true, 1)];
    assert_eq!(distinct_issuers(&stuffed), vec![cert(false, 1)]);
    assert_eq!(judge_party(4, &stuffed), None);
    assert_eq!(count_votes(&stuffed, false), 3);
    assert_eq!(count_votes(&stuffed, true), 1);
}

#[test]
fn expert_collector_without_parties_is_undecided() {
    let mut collector = ExpertCollector::new(3);
    assert_eq!(collector.offer(&Vec::new()), None);
    assert_eq!(collector.offer(&vec![cert(false, 1)]), None);
    assert_eq!(collector.offer(&vec![cert(false, 1), cert(false, 2)]), Some(false));
}

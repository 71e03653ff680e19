use vstd::prelude::*;

verus! {

broadcast use vstd::seq_lib::group_to_multiset_ensures;

/// Arguments of the simple poll: where the configuration file lies.
#[derive(Clone, Debug)]
pub struct PlayArgs {
    pub path: String,
}

/// How many of `s` equal `b`.
pub open spec fn count_of(s: Seq<bool>, b: bool) -> nat
    decreases s.len(),
{
    if s.len() == 0 {
        0
    } else {
        count_of(s.drop_last(), b) + if s.last() == b {
            1nat
        } else {
            0nat
        }
    }
}

/// The decision of the simple poll over `n` agents once `votes` have arrived,
/// in that order: the first side whose count reaches `n / 2` wins, and votes
/// after the decision do not change it.
pub open spec fn poll_outcome(n: nat, votes: Seq<bool>) -> Option<bool>
    decreases votes.len(),
{
    if votes.len() == 0 {
        None
    } else {
        let before = poll_outcome(n, votes.drop_last());
        if before is Some {
            before
        } else if count_of(votes, votes.last()) >= n / 2 {
            Some(votes.last())
        } else {
            None
        }
    }
}

/// Before a decision, each side has either no vote or fewer than `n / 2`.
proof fn lemma_undecided_counts(n: nat, votes: Seq<bool>, b: bool)
    requires
        poll_outcome(n, votes) is None,
    ensures
        count_of(votes, b) == 0 || count_of(votes, b) < n / 2,
    decreases votes.len(),
{
    if votes.len() > 0 {
        lemma_undecided_counts(n, votes.drop_last(), b);
    }
}

/// The collector of the simple poll: it counts the votes as they arrive and
/// decides as soon as one side reaches half of the agents.
pub struct Tally {
    n: usize,
    yeas: usize,
    nays: usize,
    verdict: Option<bool>,
    seen: Ghost<Seq<bool>>,
}

impl Tally {
    #[verifier::type_invariant]
    spec fn inv(self) -> bool {
        match self.verdict {
            None => {
                &&& self.yeas == count_of(self.seen@, true)
                &&& self.nays == count_of(self.seen@, false)
                &&& poll_outcome(self.n as nat, self.seen@) is None
            },
            Some(v) => poll_outcome(self.n as nat, self.seen@) == Some(v),
        }
    }

    /// The number of agents polled.
    pub closed spec fn agents(self) -> nat {
        self.n as nat
    }

    /// The votes recorded so far, in order of arrival.
    pub closed spec fn votes(self) -> Seq<bool> {
        self.seen@
    }

    /// A collector for a poll of `n` agents, with no vote yet.
    pub fn new(n: usize) -> (t: Tally)
        ensures
            t.agents() == n,
            t.votes() == Seq::<bool>::empty(),
    {
        Tally { n, yeas: 0, nays: 0, verdict: None, seen: Ghost(Seq::empty()) }
    }

    /// Records one vote and returns the decision reached so far, if any.
    pub fn record(&mut self, vote: bool) -> (r: Option<bool>)
        ensures
            final(self).agents() == old(self).agents(),
            final(self).votes() == old(self).votes().push(vote),
            r == poll_outcome(final(self).agents(), final(self).votes()),
    {
        proof {
            use_type_invariant(&*self);
        }
        let ghost seen = self.seen@.push(vote);
        assert(seen.drop_last() =~= self.seen@);
        match self.verdict {
            Some(v) => {
                *self = Tally {
                    n: self.n,
                    yeas: self.yeas,
                    nays: self.nays,
                    verdict: Some(v),
                    seen: Ghost(seen),
                };
                Some(v)
            },
            None => {
                proof {
                    lemma_undecided_counts(self.n as nat, self.seen@, vote);
                }
                let half = self.n / 2;
                let (yeas, nays) = if vote {
                    (self.yeas + 1, self.nays)
                } else {
                    (self.yeas, self.nays + 1)
                };
                let verdict = if vote && yeas >= half {
                    Some(true)
                } else if !vote && nays >= half {
                    Some(false)
                } else {
                    None
                };
                *self = Tally { n: self.n, yeas, nays, verdict, seen: Ghost(seen) };
                verdict
            },
        }
    }
}

/// The two sides of a vote add up to all of it.
pub proof fn lemma_count_total(s: Seq<bool>)
    ensures
        count_of(s, true) + count_of(s, false) == s.len(),
    decreases s.len(),
{
    if s.len() > 0 {
        lemma_count_total(s.drop_last());
    }
}

/// Counting a value is counting its multiplicity: it ignores order.
pub proof fn lemma_count_multiset(s: Seq<bool>, b: bool)
    ensures
        count_of(s, b) == s.to_multiset().count(b),
    decreases s.len(),
{
    if s.len() > 0 {
        lemma_count_multiset(s.drop_last(), b);
        assert(s.drop_last().push(s.last()) =~= s);
        assert(s.to_multiset() == s.drop_last().to_multiset().insert(s.last()));
    } else {
        assert(s.to_multiset().len() == 0);
    }
}

/// Counts only grow as votes arrive.
proof fn lemma_count_prefix(s: Seq<bool>, k: int, b: bool)
    requires
        0 <= k <= s.len(),
    ensures
        count_of(s.take(k), b) <= count_of(s, b),
    decreases s.len() - k,
{
    if k < s.len() {
        lemma_count_prefix(s, k + 1, b);
        assert(s.take(k + 1).drop_last() =~= s.take(k));
    } else {
        assert(s.take(k) =~= s);
    }
}

/// A decision is only ever taken by a side that, in the end, holds at least
/// half of the agents' votes.
proof fn lemma_decided_side_counts(n: nat, votes: Seq<bool>, b: bool)
    requires
        poll_outcome(n, votes) == Some(b),
    ensures
        count_of(votes, b) >= n / 2,
    decreases votes.len(),
{
    let rest = votes.drop_last();
    if poll_outcome(n, rest) is Some {
        lemma_decided_side_counts(n, rest, b);
        lemma_count_prefix(votes, votes.len() - 1, b);
        assert(votes.take(votes.len() - 1) == rest);
    }
}

/// A side that holds at least half of the votes, and at least one, forces a
/// decision.
proof fn lemma_majority_decides(n: nat, votes: Seq<bool>, b: bool)
    requires
        count_of(votes, b) >= n / 2,
        count_of(votes, b) > 0,
    ensures
        poll_outcome(n, votes) is Some,
    decreases votes.len(),
{
    let rest = votes.drop_last();
    if poll_outcome(n, rest) is None && votes.last() != b {
        lemma_majority_decides(n, rest, b);
    }
}

/// The simple poll finds the truth. When every agent has answered, in any
/// order, and fewer than `n / 2` of the `n` claims are lies, the poll decides
/// `value`.
pub proof fn lemma_simple_poll_finds_truth(value: bool, claims: Seq<bool>, votes: Seq<bool>)
    requires
        count_of(claims, !value) < claims.len() / 2,
        votes.to_multiset() == claims.to_multiset(),
    ensures
        poll_outcome(claims.len(), votes) == Some(value),
{
    let n = claims.len();
    lemma_count_multiset(claims, value);
    lemma_count_multiset(claims, !value);
    lemma_count_multiset(votes, value);
    lemma_count_multiset(votes, !value);
    lemma_count_total(claims);
    lemma_count_total(votes);
    assert(count_of(votes, value) >= n / 2 && count_of(votes, value) > 0);
    lemma_majority_decides(n, votes, value);
    if poll_outcome(n, votes) == Some(!value) {
        lemma_decided_side_counts(n, votes, !value);
    }
}

} // verus!

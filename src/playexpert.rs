use vstd::prelude::*;

use crate::agent::{agreeing, Certificate, Response};
use crate::conf::Child;

verus! {

/// How many certificates of `p` carry `b`.
pub open spec fn count_value(p: Seq<Certificate>, b: bool) -> nat
    decreases p.len(),
{
    if p.len() == 0 {
        0
    } else {
        count_value(p.drop_last(), b) + if p.last().value == b {
            1nat
        } else {
            0nat
        }
    }
}

/// Some certificate of `p` was issued by `who`.
pub open spec fn has_issuer(p: Seq<Certificate>, who: Child) -> bool {
    exists|i: int| 0 <= i < p.len() && #[trigger] p[i].issuer == who
}

/// `p` with only the first certificate of each issuer kept, in order.
pub open spec fn first_per_issuer(p: Seq<Certificate>) -> Seq<Certificate>
    decreases p.len(),
{
    if p.len() == 0 {
        Seq::empty()
    } else {
        let d = first_per_issuer(p.drop_last());
        if has_issuer(d, p.last().issuer) {
            d
        } else {
            d.push(p.last())
        }
    }
}

/// Half of `n` agents, rounded up.
pub open spec fn ceil_half(n: nat) -> nat {
    (n + 1) / 2
}

/// What the expert coordinator concludes from one party, in a poll of `n`
/// agents. Each issuer counts once. A party smaller than `n / 2` is
/// discarded; otherwise a side wins with at least `ceil_half(n)`
/// certificates, `true` being looked at first.
pub open spec fn party_verdict(n: nat, p: Seq<Certificate>) -> Option<bool> {
    let d = first_per_issuer(p);
    if d.len() < n / 2 {
        None
    } else if count_value(d, true) >= ceil_half(n) {
        Some(true)
    } else if count_value(d, false) >= ceil_half(n) {
        Some(false)
    } else {
        None
    }
}

/// The decision of the expert coordinator once `parties` have arrived, in
/// that order: the verdict of the first party that has one.
pub open spec fn expert_outcome(n: nat, parties: Seq<Seq<Certificate>>) -> Option<bool>
    decreases parties.len(),
{
    if parties.len() == 0 {
        None
    } else {
        let before = expert_outcome(n, parties.drop_last());
        if before is Some {
            before
        } else {
            party_verdict(n, parties.last())
        }
    }
}

proof fn lemma_count_value_le_len(p: Seq<Certificate>, b: bool)
    ensures
        count_value(p, b) <= p.len(),
    decreases p.len(),
{
    if p.len() > 0 {
        lemma_count_value_le_len(p.drop_last(), b);
    }
}

/// Whether some certificate of `p` was issued by `who`.
fn issued_by_any(p: &Vec<Certificate>, who: Child) -> (r: bool)
    ensures
        r == has_issuer(p@, who),
{
    let mut i: usize = 0;
    while i < p.len()
        invariant
            i <= p.len(),
            forall|j: int| 0 <= j < i ==> p@[j].issuer != who,
        decreases p.len() - i,
    {
        if p[i].issuer == who {
            return true;
        }
        i = i + 1;
    }
    false
}

/// The party with only the first certificate of each issuer kept, so that
/// no agent is counted twice.
pub fn distinct_issuers(party: &Vec<Certificate>) -> (d: Vec<Certificate>)
    ensures
        d@ == first_per_issuer(party@),
{
    let mut d: Vec<Certificate> = Vec::new();
    let mut i: usize = 0;
    while i < party.len()
        invariant
            i <= party.len(),
            d@ == first_per_issuer(party@.take(i as int)),
        decreases party.len() - i,
    {
        assert(party@.take(i as int + 1).drop_last() =~= party@.take(i as int));
        let c = party[i];
        if !issued_by_any(&d, c.issuer) {
            d.push(c);
        }
        i = i + 1;
    }
    assert(party@.take(party.len() as int) =~= party@);
    d
}

/// The number of certificates of `p` that carry `b`.
pub fn count_votes(p: &Vec<Certificate>, b: bool) -> (c: usize)
    ensures
        c == count_value(p@, b),
{
    let mut c: usize = 0;
    let mut i: usize = 0;
    while i < p.len()
        invariant
            i <= p.len(),
            c == count_value(p@.take(i as int), b),
        decreases p.len() - i,
    {
        assert(p@.take(i as int + 1).drop_last() =~= p@.take(i as int));
        proof {
            lemma_count_value_le_len(p@.take(i as int), b);
        }
        if p[i].value == b {
            c = c + 1;
        }
        i = i + 1;
    }
    assert(p@.take(p.len() as int) =~= p@);
    c
}

/// Judges one party of a poll of `n` agents; see `party_verdict`.
pub fn judge_party(n: usize, party: &Vec<Certificate>) -> (r: Option<bool>)
    ensures
        r == party_verdict(n as nat, party@),
{
    let d = distinct_issuers(party);
    let majority = n / 2 + n % 2;
    if d.len() < n / 2 {
        None
    } else if count_votes(&d, true) >= majority {
        Some(true)
    } else if count_votes(&d, false) >= majority {
        Some(false)
    } else {
        None
    }
}

/// The collector of the expert poll: it judges the parties as they arrive
/// and keeps the first verdict.
pub struct ExpertCollector {
    n: usize,
    verdict: Option<bool>,
    seen: Ghost<Seq<Seq<Certificate>>>,
}

impl ExpertCollector {
    #[verifier::type_invariant]
    spec fn inv(self) -> bool {
        self.verdict == expert_outcome(self.n as nat, self.seen@)
    }

    /// The number of agents polled.
    pub closed spec fn agents(self) -> nat {
        self.n as nat
    }

    /// The parties received so far, in order of arrival.
    pub closed spec fn parties(self) -> Seq<Seq<Certificate>> {
        self.seen@
    }

    /// A collector for a poll of `n` agents, with no party yet.
    pub fn new(n: usize) -> (c: ExpertCollector)
        ensures
            c.agents() == n,
            c.parties() == Seq::<Seq<Certificate>>::empty(),
    {
        ExpertCollector { n, verdict: None, seen: Ghost(Seq::empty()) }
    }

    /// Takes in one party and returns the decision reached so far, if any.
    pub fn offer(&mut self, party: &Vec<Certificate>) -> (r: Option<bool>)
        ensures
            final(self).agents() == old(self).agents(),
            final(self).parties() == old(self).parties().push(party@),
            r == expert_outcome(final(self).agents(), final(self).parties()),
    {
        proof {
            use_type_invariant(&*self);
        }
        let ghost seen = self.seen@.push(party@);
        assert(seen.drop_last() =~= self.seen@);
        let verdict = match self.verdict {
            Some(v) => Some(v),
            None => judge_party(self.n, party),
        };
        *self = ExpertCollector { n: self.n, verdict, seen: Ghost(seen) };
        verdict
    }
}

/// How many interlocutors the expert coordinator picks among `n` agents when
/// `trusted` of them are expected to tell the truth: one more than that,
/// but never more than `n`.
pub open spec fn interlocutors(n: nat, trusted: nat) -> nat {
    if trusted < n {
        trusted + 1
    } else {
        n
    }
}

/// See `interlocutors`.
pub fn interlocutor_count(n: usize, trusted: usize) -> (k: usize)
    ensures
        k == interlocutors(n as nat, trusted as nat),
{
    if trusted < n {
        trusted + 1
    } else {
        n
    }
}

/// Relies on rand's `seq::index::sample`: exactly `amount` distinct indices
/// below `length`, drawn at random (it panics when `amount > length`).
#[verifier::external_body]
fn sample_indices(length: usize, amount: usize) -> (r: Vec<usize>)
    requires
        amount <= length,
    ensures
        r@.len() == amount,
        r@.no_duplicates(),
        forall|i: int| 0 <= i < r@.len() ==> r@[i] < length,
{
    rand::seq::index::sample(&mut rand::thread_rng(), length, amount).into_vec()
}

/// Picks the interlocutors of an expert poll among `n` agents, at random and
/// without repetition: `interlocutors(n, trusted)` distinct positions in the
/// configuration.
pub fn pick_interlocutors(n: usize, trusted: usize) -> (picks: Vec<usize>)
    ensures
        picks@.len() == interlocutors(n as nat, trusted as nat),
        picks@.no_duplicates(),
        forall|i: int| 0 <= i < picks@.len() ==> picks@[i] < n,
{
    let k = interlocutor_count(n, trusted);
    sample_indices(n, k)
}

/// Every certificate of `p` is one that an agent of `roster` issues: the
/// unforgeability of certificates, stated against the agents' true claims.
pub open spec fn genuine(roster: Seq<Certificate>, p: Seq<Certificate>) -> bool {
    forall|i: int| 0 <= i < p.len() ==> roster.contains(#[trigger] p[i])
}

/// No two certificates of `p` share an issuer.
pub open spec fn distinct_agents(p: Seq<Certificate>) -> bool {
    forall|i: int, j: int| 0 <= i < j < p.len() ==> #[trigger] p[i].issuer != #[trigger] p[j].issuer
}

/// The replies that a campaign gets when every agent of `roster` answers.
pub open spec fn answers(roster: Seq<Certificate>) -> Seq<Response> {
    roster.map_values(|c: Certificate| Response::Certificate(c))
}

proof fn lemma_count_value_total(p: Seq<Certificate>)
    ensures
        count_value(p, true) + count_value(p, false) == p.len(),
    decreases p.len(),
{
    if p.len() > 0 {
        lemma_count_value_total(p.drop_last());
    }
}

proof fn lemma_count_value_all(p: Seq<Certificate>, b: bool)
    requires
        forall|i: int| 0 <= i < p.len() ==> #[trigger] p[i].value == b,
    ensures
        count_value(p, b) == p.len(),
    decreases p.len(),
{
    if p.len() > 0 {
        lemma_count_value_all(p.drop_last(), b);
    }
}

proof fn lemma_count_value_remove(r: Seq<Certificate>, i: int, b: bool)
    requires
        0 <= i < r.len(),
    ensures
        count_value(r, b) == count_value(r.remove(i), b) + if r[i].value == b {
            1nat
        } else {
            0nat
        },
    decreases r.len(),
{
    if i == r.len() - 1 {
        assert(r.remove(i) =~= r.drop_last());
    } else {
        assert(r.remove(i).drop_last() =~= r.drop_last().remove(i));
        lemma_count_value_remove(r.drop_last(), i, b);
    }
}

/// A party without repeated certificates, all of them genuine, holds no more
/// certificates of a value than the agents who claim it.
proof fn lemma_genuine_count_bound(roster: Seq<Certificate>, q: Seq<Certificate>, b: bool)
    requires
        q.no_duplicates(),
        genuine(roster, q),
    ensures
        count_value(q, b) <= count_value(roster, b),
    decreases q.len(),
{
    if q.len() > 0 {
        let x = q.last();
        assert(roster.contains(q[q.len() - 1]));
        let i = choose|i: int| 0 <= i < roster.len() && roster[i] == x;
        let r2 = roster.remove(i);
        let q2 = q.drop_last();
        assert forall|j: int| 0 <= j < q2.len() implies r2.contains(#[trigger] q2[j]) by {
            assert(q[j] == q2[j]);
            assert(roster.contains(q[j]));
            let m = choose|m: int| 0 <= m < roster.len() && roster[m] == q[j];
            assert(m != i);
            if m < i {
                assert(r2[m] == q2[j]);
            } else {
                assert(r2[m - 1] == q2[j]);
            }
        }
        lemma_genuine_count_bound(r2, q2, b);
        lemma_count_value_remove(roster, i, b);
    }
}

proof fn lemma_first_per_issuer_props(p: Seq<Certificate>)
    ensures
        distinct_agents(first_per_issuer(p)),
        forall|i: int|
            0 <= i < first_per_issuer(p).len() ==> p.contains(#[trigger] first_per_issuer(p)[i]),
        distinct_agents(p) ==> first_per_issuer(p) == p,
    decreases p.len(),
{
    if p.len() > 0 {
        let rest = p.drop_last();
        let d = first_per_issuer(rest);
        lemma_first_per_issuer_props(rest);
        let e = first_per_issuer(p);
        assert forall|i: int| 0 <= i < e.len() implies p.contains(#[trigger] e[i]) by {
            if i < d.len() {
                assert(rest.contains(d[i]));
                let m = choose|m: int| 0 <= m < rest.len() && rest[m] == d[i];
                assert(p[m] == e[i]);
            } else {
                assert(p[p.len() - 1] == e[i]);
            }
        }
        if distinct_agents(p) {
            assert(distinct_agents(rest)) by {
                assert forall|i: int, j: int| 0 <= i < j < rest.len() implies #[trigger] rest[i].issuer
                    != #[trigger] rest[j].issuer by {
                    assert(rest[i] == p[i] && rest[j] == p[j]);
                }
            }
            if has_issuer(d, p.last().issuer) {
                let k = choose|k: int| 0 <= k < d.len() && #[trigger] d[k].issuer == p.last().issuer;
                assert(d[k] == rest[k]);
                assert(p[k].issuer != p[p.len() - 1].issuer);
            }
            assert(p =~= rest.push(p.last()));
        }
    }
}

proof fn lemma_distinct_agents_no_duplicates(p: Seq<Certificate>)
    requires
        distinct_agents(p),
    ensures
        p.no_duplicates(),
{
    assert forall|i: int, j: int| 0 <= i < p.len() && 0 <= j < p.len() && i != j implies p[i]
        != p[j] by {
        if i < j {
            assert(p[i].issuer != p[j].issuer);
        } else {
            assert(p[j].issuer != p[i].issuer);
        }
    }
}

/// A genuine party never wins for a value that fewer than half of the agents
/// claim.
proof fn lemma_genuine_verdict(roster: Seq<Certificate>, p: Seq<Certificate>, value: bool)
    requires
        2 * count_value(roster, !value) < roster.len(),
        genuine(roster, p),
    ensures
        party_verdict(roster.len(), p) != Some(!value),
{
    let d = first_per_issuer(p);
    lemma_first_per_issuer_props(p);
    lemma_distinct_agents_no_duplicates(d);
    assert forall|i: int| 0 <= i < d.len() implies roster.contains(#[trigger] d[i]) by {
        assert(p.contains(d[i]));
        let m = choose|m: int| 0 <= m < p.len() && p[m] == d[i];
        assert(roster.contains(p[m]));
    }
    lemma_genuine_count_bound(roster, d, !value);
}

/// The party of an agent whose campaign reached every agent: the agents that
/// share its claim, each once.
proof fn lemma_full_party(roster: Seq<Certificate>, b: bool)
    requires
        distinct_agents(roster),
    ensures
        genuine(roster, agreeing(b, answers(roster))),
        distinct_agents(agreeing(b, answers(roster))),
        agreeing(b, answers(roster)).len() == count_value(roster, b),
        forall|i: int|
            0 <= i < agreeing(b, answers(roster)).len() ==> #[trigger] agreeing(
                b,
                answers(roster),
            )[i].value == b,
    decreases roster.len(),
{
    if roster.len() > 0 {
        let rest = roster.drop_last();
        assert(answers(roster).drop_last() =~= answers(rest));
        assert(distinct_agents(rest)) by {
            assert forall|i: int, j: int| 0 <= i < j < rest.len() implies #[trigger] rest[i].issuer
                != #[trigger] rest[j].issuer by {
                assert(rest[i] == roster[i] && rest[j] == roster[j]);
            }
        }
        lemma_full_party(rest, b);
        let a = agreeing(b, answers(rest));
        let full = agreeing(b, answers(roster));
        assert(answers(roster).last() == Response::Certificate(roster.last()));
        assert forall|i: int| 0 <= i < full.len() implies roster.contains(#[trigger] full[i]) by {
            if i < a.len() {
                assert(rest.contains(a[i]));
                let m = choose|m: int| 0 <= m < rest.len() && rest[m] == a[i];
                assert(roster[m] == full[i]);
            } else {
                assert(roster[roster.len() - 1] == full[i]);
            }
        }
        assert forall|i: int, j: int| 0 <= i < j < full.len() implies #[trigger] full[i].issuer
            != #[trigger] full[j].issuer by {
            if j < a.len() {
                assert(a[i].issuer != a[j].issuer);
            } else {
                assert(full[i] == a[i]);
                assert(rest.contains(a[i]));
                let m = choose|m: int| 0 <= m < rest.len() && rest[m] == a[i];
                assert(roster[m].issuer != roster[roster.len() - 1].issuer);
            }
        }
    }
}

/// Among more interlocutors than there are liars, one tells the truth.
proof fn lemma_truthful_interlocutor(
    roster: Seq<Certificate>,
    value: bool,
    picks: Seq<usize>,
) -> (k: int)
    requires
        distinct_agents(roster),
        picks.no_duplicates(),
        forall|i: int| 0 <= i < picks.len() ==> picks[i] < roster.len(),
        picks.len() > count_value(roster, !value),
    ensures
        0 <= k < picks.len(),
        roster[picks[k] as int].value == value,
{
    let chosen = Seq::new(picks.len(), |i: int| roster[picks[i] as int]);
    if forall|i: int| 0 <= i < picks.len() ==> roster[#[trigger] picks[i] as int].value != value {
        assert forall|i: int, j: int| 0 <= i < j < chosen.len() implies #[trigger] chosen[i].issuer
            != #[trigger] chosen[j].issuer by {
            assert(picks[i] != picks[j]);
            if picks[i] < picks[j] {
                assert(roster[picks[i] as int].issuer != roster[picks[j] as int].issuer);
            } else {
                assert(roster[picks[j] as int].issuer != roster[picks[i] as int].issuer);
            }
        }
        lemma_distinct_agents_no_duplicates(chosen);
        assert forall|i: int| 0 <= i < chosen.len() implies roster.contains(#[trigger] chosen[i]) by {
            assert(roster[picks[i] as int] == chosen[i]);
        }
        assert forall|i: int| 0 <= i < chosen.len() implies #[trigger] chosen[i].value == !value by {
            assert(roster[picks[i] as int].value != value);
        }
        lemma_count_value_all(chosen, !value);
        lemma_genuine_count_bound(roster, chosen, !value);
        assert(false);
    }
    choose|k: int| 0 <= k < picks.len() && roster[picks[k] as int].value == value
}

proof fn lemma_outcome_found(n: nat, parties: Seq<Seq<Certificate>>, value: bool, k: int)
    requires
        0 <= k < parties.len(),
        party_verdict(n, parties[k]) == Some(value),
        forall|j: int| 0 <= j < parties.len() ==> party_verdict(n, #[trigger] parties[j]) != Some(!value),
    ensures
        expert_outcome(n, parties) == Some(value),
    decreases parties.len(),
{
    let rest = parties.drop_last();
    if k < parties.len() - 1 {
        assert forall|j: int| 0 <= j < rest.len() implies party_verdict(n, #[trigger] rest[j])
            != Some(!value) by {
            assert(rest[j] == parties[j]);
        }
        assert(rest[k] == parties[k]);
        lemma_outcome_found(n, rest, value, k);
    } else {
        lemma_outcome_never(n, rest, value);
        assert(parties[parties.len() - 1] == parties.last());
    }
}

proof fn lemma_outcome_never(n: nat, parties: Seq<Seq<Certificate>>, value: bool)
    requires
        forall|j: int| 0 <= j < parties.len() ==> party_verdict(n, #[trigger] parties[j]) != Some(!value),
    ensures
        expert_outcome(n, parties) != Some(!value),
    decreases parties.len(),
{
    if parties.len() > 0 {
        let rest = parties.drop_last();
        assert forall|j: int| 0 <= j < rest.len() implies party_verdict(n, #[trigger] rest[j])
            != Some(!value) by {
            assert(rest[j] == parties[j]);
        }
        lemma_outcome_never(n, rest, value);
        assert(parties[parties.len() - 1] == parties.last());
    }
}

/// The expert poll finds the truth.
///
/// `roster` holds, for each agent of the configuration, the certificate it
/// issues: its identity and its claim. Fewer than half of the claims are lies,
/// and `trusted` is at least the number of truthful agents less one. The
/// interlocutors are `interlocutors(n, trusted)` distinct agents. Every party
/// that arrives is genuine, and each interlocutor's party, assembled from the
/// answers of all agents, is among them, in any order. Then the expert poll
/// decides `value`.
pub proof fn lemma_expert_poll_finds_truth(
    value: bool,
    roster: Seq<Certificate>,
    trusted: nat,
    picks: Seq<usize>,
    parties: Seq<Seq<Certificate>>,
)
    requires
        distinct_agents(roster),
        2 * count_value(roster, !value) < roster.len(),
        count_value(roster, !value) + trusted + 1 >= roster.len(),
        picks.len() == interlocutors(roster.len(), trusted),
        picks.no_duplicates(),
        forall|i: int| 0 <= i < picks.len() ==> picks[i] < roster.len(),
        forall|j: int| 0 <= j < parties.len() ==> genuine(roster, #[trigger] parties[j]),
        forall|i: int|
            0 <= i < picks.len() ==> parties.contains(
                agreeing(#[trigger] roster[picks[i] as int].value, answers(roster)),
            ),
    ensures
        expert_outcome(roster.len(), parties) == Some(value),
{
    let n = roster.len();
    lemma_count_value_total(roster);
    let k = lemma_truthful_interlocutor(roster, value, picks);
    let full = agreeing(value, answers(roster));
    assert(parties.contains(agreeing(roster[picks[k] as int].value, answers(roster))));
    let j = choose|j: int| 0 <= j < parties.len() && parties[j] == full;
    lemma_full_party(roster, value);
    lemma_first_per_issuer_props(full);
    lemma_count_value_all(full, value);
    lemma_count_value_total(full);
    assert(party_verdict(n, full) == Some(value));
    assert forall|i: int| 0 <= i < parties.len() implies party_verdict(n, #[trigger] parties[i])
        != Some(!value) by {
        lemma_genuine_verdict(roster, parties[i], value);
    }
    lemma_outcome_found(n, parties, value, j);
}

} // verus!

use vstd::prelude::*;

use crate::play::{count_of, lemma_count_multiset, lemma_count_total};

verus! {

broadcast use vstd::seq_lib::group_to_multiset_ensures;

/// The claims before shuffling: `liars` agents claim the negation of
/// `value`, the others claim `value`.
pub open spec fn claims_plan(value: bool, n: nat, liars: nat) -> Seq<bool> {
    Seq::new(n, |i: int| if i < liars { !value } else { value })
}

proof fn lemma_plan_counts(value: bool, n: nat, liars: nat)
    requires
        liars <= n,
    ensures
        count_of(claims_plan(value, n, liars), !value) == liars,
        count_of(claims_plan(value, n, liars), value) == n - liars,
    decreases n,
{
    let s = claims_plan(value, n, liars);
    if n > 0 {
        if liars == n {
            lemma_plan_counts(value, (n - 1) as nat, (liars - 1) as nat);
            assert(s.drop_last() =~= claims_plan(value, (n - 1) as nat, (liars - 1) as nat));
        } else {
            lemma_plan_counts(value, (n - 1) as nat, liars);
            assert(s.drop_last() =~= claims_plan(value, (n - 1) as nat, liars));
        }
    }
}

/// The claims of `num_agents` agents of which the first `num_liars` lie.
pub fn assign_claims(value: bool, num_agents: usize, num_liars: usize) -> (claims: Vec<bool>)
    requires
        num_liars <= num_agents,
    ensures
        claims@ == claims_plan(value, num_agents as nat, num_liars as nat),
{
    let mut claims: Vec<bool> = Vec::with_capacity(num_agents);
    let mut i: usize = 0;
    while i < num_agents
        invariant
            i <= num_agents,
            claims@ == claims_plan(value, i as nat, num_liars as nat),
        decreases num_agents - i,
    {
        claims.push(if i < num_liars {
            !value
        } else {
            value
        });
        i = i + 1;
        assert(claims@ =~= claims_plan(value, i as nat, num_liars as nat));
    }
    claims
}

/// Relies on rand's `SliceRandom::shuffle` on the thread's generator: it
/// permutes the slice in place (by swaps), keeping its elements.
#[verifier::external_body]
fn shuffle(v: &mut Vec<bool>)
    ensures
        final(v)@.to_multiset() == old(v)@.to_multiset(),
{
    rand::seq::SliceRandom::shuffle(v.as_mut_slice(), &mut rand::thread_rng())
}

/// The claims to hand out to `num_agents` new agents, in random order:
/// exactly `num_liars` of them are the negation of `value`, and the others
/// are `value`.
pub fn plan_claims(value: bool, num_agents: usize, num_liars: usize) -> (claims: Vec<bool>)
    requires
        num_liars <= num_agents,
    ensures
        claims@.to_multiset() == claims_plan(value, num_agents as nat, num_liars as nat).to_multiset(),
        claims@.len() == num_agents,
        count_of(claims@, !value) == num_liars,
        count_of(claims@, value) == num_agents - num_liars,
{
    let mut claims = assign_claims(value, num_agents, num_liars);
    shuffle(&mut claims);
    proof {
        let plan = claims_plan(value, num_agents as nat, num_liars as nat);
        lemma_plan_counts(value, num_agents as nat, num_liars as nat);
        lemma_count_multiset(plan, value);
        lemma_count_multiset(plan, !value);
        lemma_count_multiset(claims@, value);
        lemma_count_multiset(claims@, !value);
        lemma_count_total(claims@);
    }
    claims
}

} // verus!

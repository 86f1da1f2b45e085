use vstd::prelude::*;

use crate::contract::{lemma_names_unique, names, DripState};
use crate::error::ContractError;
use crate::ledger::{token_total, ShareLedger};

verus! {

/// The deadline after a cycle run at `now`, no earlier than the deadline
/// `next`: the first time after `now` that lies a whole number of epochs
/// after `next`. Missed epochs are skipped, not scheduled one by one.
pub open spec fn next_time(next: u64, now: u64, epoch_duration: u64) -> int {
    next + ((now - next) / (epoch_duration as int) + 1) * epoch_duration
}

/// `(k, m2)` comes before `(i, m)` in the order participants, then tokens.
pub open spec fn done_before(i: int, m: int, k: int, m2: int) -> bool {
    k < i || (k == i && m2 < m)
}

/// Credits `total_staked` shares to `participant` in the pool of every token
/// of `drip_tokens`, creating entries as needed. Fails with `Overflow`,
/// changing nothing, when one of the entries would leave the range of `u128`.
pub fn update_participant_shares(
    ledger: &mut ShareLedger,
    participant: &String,
    drip_tokens: &Vec<String>,
    total_staked: u128,
) -> (r: Result<(), ContractError>)
    requires
        old(ledger).wf(),
        names(drip_tokens@).no_duplicates(),
    ensures
        final(ledger).wf(),
        r is Ok <==> forall|m: int|
            0 <= m < drip_tokens@.len() ==> old(ledger).shares_of(participant@, #[trigger] drip_tokens@[m]@)
                + total_staked <= u128::MAX,
        r is Err ==> r == Err::<(), ContractError>(ContractError::Overflow {}),
        r is Err ==> *final(ledger) == *old(ledger),
        r is Ok ==> forall|t: Seq<char>|
            #[trigger] final(ledger).shares_of(participant@, t) == old(ledger).shares_of(participant@, t)
                + (if names(drip_tokens@).contains(t) {
                total_staked as nat
            } else {
                0
            }),
        r is Ok ==> forall|t: Seq<char>|
            #[trigger] final(ledger).has(participant@, t) == (old(ledger).has(participant@, t) || names(
                drip_tokens@,
            ).contains(t)),
        r is Ok ==> forall|p: Seq<char>, t: Seq<char>|
            p != participant@ ==> #[trigger] final(ledger).shares_of(p, t) == old(ledger).shares_of(p, t)
                && final(ledger).has(p, t) == old(ledger).has(p, t),
        forall|e: int|
            0 <= e < final(ledger).entries@.len() ==> old(ledger).entries@.contains(
                #[trigger] final(ledger).entries@[e],
            ) || (final(ledger).entries@[e].participant@ == participant@ && names(drip_tokens@).contains(
                final(ledger).entries@[e].token@,
            )),
        r is Ok ==> forall|t: Seq<char>|
            #[trigger] token_total(final(ledger).entries@, t) == token_total(old(ledger).entries@, t) + if names(
                drip_tokens@,
            ).contains(t) {
                total_staked as int
            } else {
                0
            },
{
    let ghost ts = drip_tokens@;
    let ghost ns = names(drip_tokens@);
    let mut m: usize = 0;
    while m < drip_tokens.len()
        invariant
            ledger.wf(),
            m <= ts.len(),
            ts == drip_tokens@,
            forall|m2: int| 0 <= m2 < m ==> ledger.shares_of(participant@, #[trigger] ts[m2]@) + total_staked <= u128::MAX,
        decreases ts.len() - m,
    {
        if ledger.get_shares(participant, &drip_tokens[m]).checked_add(total_staked).is_none() {
            return Err(ContractError::Overflow {});
        }
        m = m + 1;
    }
    let ghost l0 = *ledger;
    proof {
        lemma_names_unique(ts);
    }
    let mut m: usize = 0;
    while m < drip_tokens.len()
        invariant
            l0.wf(),
            ledger.wf(),
            m <= ts.len(),
            ts == drip_tokens@,
            ns == names(ts),
            forall|a: int, c: int|
                #![trigger ts[a], ts[c]]
                0 <= a < ts.len() && 0 <= c < ts.len() && a != c ==> ts[a]@ != ts[c]@,
            forall|m2: int| 0 <= m2 < ts.len() ==> l0.shares_of(participant@, #[trigger] ts[m2]@) + total_staked <= u128::MAX,
            forall|t: Seq<char>|
                #[trigger] ledger.shares_of(participant@, t) == l0.shares_of(participant@, t) + (if ns.take(
                    m as int,
                ).contains(t) {
                    total_staked as nat
                } else {
                    0
                }),
            forall|t: Seq<char>|
                #[trigger] ledger.has(participant@, t) == (l0.has(participant@, t) || ns.take(m as int).contains(t)),
            forall|p: Seq<char>, t: Seq<char>|
                p != participant@ ==> #[trigger] ledger.shares_of(p, t) == l0.shares_of(p, t) && ledger.has(p, t)
                    == l0.has(p, t),
            forall|e: int|
                0 <= e < ledger.entries@.len() ==> l0.entries@.contains(#[trigger] ledger.entries@[e])
                    || (ledger.entries@[e].participant@ == participant@ && ns.contains(ledger.entries@[e].token@)),
            forall|t: Seq<char>|
                #[trigger] token_total(ledger.entries@, t) == token_total(l0.entries@, t) + if ns.take(m as int).contains(t) {
                    total_staked as int
                } else {
                    0
                },
        decreases ts.len() - m,
    {
        let ghost l1 = *ledger;
        let ghost tm = ts[m as int]@;
        let m1: usize = m + 1;
        proof {
            assert(ns[m as int] == tm);
            assert forall|t: Seq<char>| #[trigger] ns.take(m1 as int).contains(t) <==> (ns.take(m as int).contains(t) || t == tm) by {
                if ns.take(m1 as int).contains(t) {
                    let k = choose|k: int| 0 <= k < m1 && ns.take(m1 as int)[k] == t;
                    if k < m {
                        assert(ns.take(m as int)[k] == t);
                    }
                }
                if ns.take(m as int).contains(t) {
                    let k = choose|k: int| 0 <= k < m && ns.take(m as int)[k] == t;
                    assert(ns.take(m1 as int)[k] == t);
                }
                if t == tm {
                    assert(ns.take(m1 as int)[m as int] == t);
                }
            }
            assert(!ns.take(m as int).contains(tm)) by {
                if ns.take(m as int).contains(tm) {
                    let k = choose|k: int| 0 <= k < m && ns.take(m as int)[k] == tm;
                    assert(ts[k]@ == ts[m as int]@);
                }
            }
            assert(l1.shares_of(participant@, tm) == l0.shares_of(participant@, tm));
        }
        let res = ledger.accrue(participant, &drip_tokens[m], total_staked);
        proof {
            assert(res is Ok);
            assert forall|e: int|
                0 <= e < ledger.entries@.len() implies l0.entries@.contains(#[trigger] ledger.entries@[e])
                    || (ledger.entries@[e].participant@ == participant@ && ns.contains(ledger.entries@[e].token@)) by {
                if l1.entries@.contains(ledger.entries@[e]) {
                    let e0 = choose|e0: int| 0 <= e0 < l1.entries@.len() && l1.entries@[e0] == ledger.entries@[e];
                    assert(l0.entries@.contains(l1.entries@[e0]) || (l1.entries@[e0].participant@ == participant@
                        && ns.contains(l1.entries@[e0].token@)));
                } else {
                    assert(ns[m as int] == ledger.entries@[e].token@);
                }
            }
        }
        m = m1;
    }
    proof {
        assert(ns.take(ts.len() as int) =~= ns);
    }
    Ok(())
}

/// Shares credited to participant `p` for token `t` over a run of cycles,
/// cycle `i` starting from `states[i]` with `weights[i]`.
pub open spec fn credits_over(states: Seq<DripState>, weights: Seq<Seq<u128>>, p: Seq<char>, t: Seq<char>) -> nat
    decreases states.len(),
{
    if states.len() == 0 || weights.len() == 0 {
        0
    } else {
        credits_over(states.drop_last(), weights.drop_last(), p, t) + states.last().cycle_credit(
            weights.last(),
            p,
            t,
        )
    }
}

/// Share conservation: over successive cycles with no withdrawal in between,
/// the shares of a (participant, token) pair that had no entry are the sum of
/// the weights the cycles credited to it.
pub proof fn lemma_share_conservation(
    states: Seq<DripState>,
    weights: Seq<Seq<u128>>,
    ledgers: Seq<ShareLedger>,
    p: Seq<char>,
    t: Seq<char>,
)
    requires
        weights.len() == states.len(),
        ledgers.len() == states.len() + 1,
        !ledgers[0].has(p, t),
        forall|i: int|
            0 <= i < states.len() ==> #[trigger] states[i].accrued(ledgers[i], ledgers[i + 1], weights[i]),
    ensures
        ledgers.last().shares_of(p, t) == credits_over(states, weights, p, t),
    decreases states.len(),
{
    let n = states.len() as int;
    if n > 0 {
        let ls = ledgers.drop_last();
        assert forall|i: int| 0 <= i < n - 1 implies #[trigger] states.drop_last()[i].accrued(
            ls[i],
            ls[i + 1],
            weights.drop_last()[i],
        ) by {
            assert(states[i].accrued(ledgers[i], ledgers[i + 1], weights[i]));
        }
        lemma_share_conservation(states.drop_last(), weights.drop_last(), ls, p, t);
        assert(states[n - 1].accrued(ledgers[n - 1], ledgers[n], weights[n - 1]));
        assert(ls.last() == ledgers[n - 1]);
    }
}

/// Time gating: after a cycle run at `now`, no earlier than the deadline
/// `next`, the new deadline is a whole number of epochs after `next`, later
/// than `now` and at most one epoch after it. So a second cycle at the same
/// `now` is refused with `NoDistributionTime` while a pool is active.
pub proof fn lemma_next_deadline(next: u64, now: u64, epoch_duration: u64)
    requires
        next <= now,
        epoch_duration > 0,
    ensures
        next < next_time(next, now, epoch_duration),
        now < next_time(next, now, epoch_duration) <= now + epoch_duration,
        (next_time(next, now, epoch_duration) - next) % (epoch_duration as int) == 0,
{
    let e = now - next;
    let d = epoch_duration as int;
    let q = e / d;
    vstd::arithmetic::div_mod::lemma_fundamental_div_mod(e, d);
    vstd::arithmetic::div_mod::lemma_div_pos_is_pos(e, d);
    vstd::arithmetic::div_mod::lemma_mod_pos_bound(e, d);
    assert((q + 1) * d == d * q + d) by (nonlinear_arith);
    vstd::arithmetic::div_mod::lemma_mod_multiples_basic(q + 1, d);
}

/// Sum of a sequence of amounts.
pub open spec fn amounts_sum(s: Seq<u128>) -> int
    decreases s.len(),
{
    if s.len() == 0 {
        0
    } else {
        amounts_sum(s.drop_last()) + s.last()
    }
}

proof fn lemma_amounts_sum_prefix(s: Seq<u128>, i: int)
    requires
        0 <= i <= s.len(),
    ensures
        0 <= amounts_sum(s.take(i)) <= amounts_sum(s),
    decreases s.len() - i,
{
    if i < s.len() {
        lemma_amounts_sum_prefix(s, i + 1);
        assert(s.take(i + 1).drop_last() =~= s.take(i));
    } else {
        assert(s.take(i) =~= s);
    }
    lemma_amounts_sum_nonneg(s.take(i));
}

proof fn lemma_amounts_sum_nonneg(s: Seq<u128>)
    ensures
        0 <= amounts_sum(s),
    decreases s.len(),
{
    if s.len() > 0 {
        lemma_amounts_sum_nonneg(s.drop_last());
    }
}

/// The eligibility weight of a participant: the sum of the amounts of its
/// delegations. Fails with `Overflow` when the sum does not fit in `u128`.
pub fn total_staked(amounts: &Vec<u128>) -> (r: Result<u128, ContractError>)
    ensures
        r is Ok <==> amounts_sum(amounts@) <= u128::MAX,
        r is Ok ==> r->Ok_0 == amounts_sum(amounts@),
        r is Err ==> r == Err::<u128, ContractError>(ContractError::Overflow {}),
{
    let mut total: u128 = 0;
    let mut i: usize = 0;
    while i < amounts.len()
        invariant
            i <= amounts@.len(),
            total == amounts_sum(amounts@.take(i as int)),
        decreases amounts@.len() - i,
    {
        proof {
            assert(amounts@.take(i + 1).drop_last() =~= amounts@.take(i as int));
        }
        total = match total.checked_add(amounts[i]) {
            Some(v) => v,
            None => {
                proof {
                    lemma_amounts_sum_prefix(amounts@, i + 1);
                }
                return Err(ContractError::Overflow {});
            },
        };
        i = i + 1;
    }
    proof {
        assert(amounts@.take(amounts@.len() as int) =~= amounts@);
    }
    Ok(total)
}

impl DripState {
    /// Participant `k` meets the minimum weight in a cycle with `weights`.
    pub open spec fn eligible(self, weights: Seq<u128>, k: int) -> bool {
        weights[k] >= self.config.min_staking_amount
    }

    /// The shares participant `k` receives in every active pool in a cycle.
    pub open spec fn weight_in_cycle(self, weights: Seq<u128>, k: int) -> nat {
        if self.eligible(weights, k) {
            weights[k] as nat
        } else {
            0
        }
    }

    /// Shares emitted by the first `n` participants.
    pub open spec fn emitted_upto(self, weights: Seq<u128>, n: int) -> nat
        decreases n,
    {
        if n <= 0 {
            0
        } else {
            self.emitted_upto(weights, n - 1) + self.weight_in_cycle(weights, n - 1)
        }
    }

    /// Shares emitted into every active pool by a cycle: the sum of the
    /// weights that meet the minimum.
    pub open spec fn emitted(self, weights: Seq<u128>) -> nat {
        self.emitted_upto(weights, self.participants@.len() as int)
    }

    /// Participant `p` receives shares of token `t` in a cycle: `t` is active
    /// and `p` is a participant whose weight meets the minimum.
    pub open spec fn credited(self, weights: Seq<u128>, p: Seq<char>, t: Seq<char>) -> bool {
        &&& self.is_active_token(t)
        &&& exists|k: int|
            0 <= k < self.participants@.len() && #[trigger] self.participants@[k]@ == p
                && self.eligible(weights, k)
    }

    /// The shares of token `t` that participant `p` receives in a cycle.
    pub open spec fn cycle_credit(self, weights: Seq<u128>, p: Seq<char>, t: Seq<char>) -> nat {
        if self.credited(weights, p, t) {
            weights[choose|k: int|
                0 <= k < self.participants@.len() && #[trigger] self.participants@[k]@ == p
                    && self.eligible(weights, k)] as nat
        } else {
            0
        }
    }

    /// `after` is `before` with one cycle's credits added: every credited
    /// (participant, token) pair gains the participant's weight and has an
    /// entry; every other pair is untouched.
    pub open spec fn accrued(self, before: ShareLedger, after: ShareLedger, weights: Seq<u128>) -> bool {
        &&& forall|p: Seq<char>, t: Seq<char>|
            #[trigger] after.shares_of(p, t) == before.shares_of(p, t) + self.cycle_credit(
                weights,
                p,
                t,
            )
        &&& forall|p: Seq<char>, t: Seq<char>| #[trigger]
            after.has(p, t) == (before.has(p, t) || self.credited(weights, p, t))
    }

    /// Some credit would take a ledger entry out of the range of `u128`.
    pub open spec fn accrual_overflows(self, weights: Seq<u128>) -> bool {
        exists|k: int, m: int|
            0 <= k < self.participants@.len() && 0 <= m < self.drip_tokens@.len()
                && self.eligible(weights, k) && self.shares.shares_of(
                #[trigger] self.participants@[k]@,
                #[trigger] self.drip_tokens@[m]@,
            ) + weights[k] > u128::MAX
    }

    /// Some active pool's issued shares would leave the range of `u128`.
    pub open spec fn pool_overflows(self, emitted: int) -> bool {
        exists|m: int|
            0 <= m < self.drip_tokens@.len() && self.pool_of(#[trigger] self.drip_tokens@[m]@).issued_shares
                + emitted > u128::MAX
    }

    /// A cycle with `weights` would take a counter out of its range.
    pub open spec fn cycle_overflows(self, weights: Seq<u128>) -> bool {
        ||| self.emitted(weights) > u128::MAX
        ||| self.accrual_overflows(weights)
        ||| self.pool_overflows(self.emitted(weights) as int)
    }

    /// The active tokens of `toks` whose pool still has epochs left after
    /// releasing one more.
    pub open spec fn retained(self, toks: Seq<Seq<char>>) -> Seq<Seq<char>>
        decreases toks.len(),
    {
        if toks.len() == 0 {
            toks
        } else if self.pool_of(toks.last()).epoch + 1 < self.pool_of(toks.last()).epochs_number {
            self.retained(toks.drop_last()).push(toks.last())
        } else {
            self.retained(toks.drop_last())
        }
    }

    proof fn lemma_emitted_upto_mono(self, weights: Seq<u128>, a: int, b: int)
        requires
            0 <= a <= b,
        ensures
            self.emitted_upto(weights, a) <= self.emitted_upto(weights, b),
        decreases b - a,
    {
        if a < b {
            self.lemma_emitted_upto_mono(weights, a, b - 1);
        }
    }

    /// The sum of the weights that meet the minimum, if it fits in `u128`.
    fn cycle_emitted(&self, weights: &Vec<u128>) -> (r: Option<u128>)
        requires
            weights@.len() == self.participants@.len(),
        ensures
            r is Some <==> self.emitted(weights@) <= u128::MAX,
            r is Some ==> r->Some_0 == self.emitted(weights@),
    {
        let mut emitted: u128 = 0;
        let mut i: usize = 0;
        while i < weights.len()
            invariant
                i <= weights@.len(),
                weights@.len() == self.participants@.len(),
                emitted == self.emitted_upto(weights@, i as int),
            decreases weights@.len() - i,
        {
            if weights[i] >= self.config.min_staking_amount {
                emitted = match emitted.checked_add(weights[i]) {
                    Some(v) => v,
                    None => {
                        proof {
                            assert(self.emitted_upto(weights@, i + 1) == emitted + weights@[i as int]);
                            self.lemma_emitted_upto_mono(weights@, i + 1, weights@.len() as int);
                        }
                        return None;
                    },
                };
            }
            i = i + 1;
        }
        Some(emitted)
    }

    /// Whether every active pool can take `emitted` more issued shares.
    fn pools_fit(&self, emitted: u128) -> (r: bool)
        requires
            self.wf(),
        ensures
            r == !self.pool_overflows(emitted as int),
    {
        let mut m: usize = 0;
        while m < self.drip_tokens.len()
            invariant
                self.wf(),
                m <= self.drip_tokens@.len(),
                forall|m2: int|
                    0 <= m2 < m ==> self.pool_of(#[trigger] self.drip_tokens@[m2]@).issued_shares
                        + emitted <= u128::MAX,
            decreases self.drip_tokens@.len() - m,
        {
            let t = &self.drip_tokens[m];
            proof {
                assert(self.has_pool(self.drip_tokens@[m as int]@));
            }
            if let Some(j) = self.find_pool(t) {
                proof {
                    self.lemma_pool_at(j as int);
                }
                if self.drip_pools[j].issued_shares.checked_add(emitted).is_none() {
                    return false;
                }
            }
            m = m + 1;
        }
        true
    }

    /// The ledger after crediting one cycle, or `Overflow` if a credit does
    /// not fit.
    fn accrue_cycle(&self, weights: &Vec<u128>) -> (r: Result<ShareLedger, ContractError>)
        requires
            self.wf(),
            weights@.len() == self.participants@.len(),
        ensures
            r is Ok <==> !self.accrual_overflows(weights@),
            r is Err ==> r == Err::<ShareLedger, ContractError>(ContractError::Overflow {}),
            r is Ok ==> r->Ok_0.wf(),
            r is Ok ==> self.accrued(self.shares, r->Ok_0, weights@),
            r is Ok ==> forall|i: int|
                0 <= i < r->Ok_0.entries@.len() ==> self.has_pool(
                    (#[trigger] r->Ok_0.entries@[i]).token@,
                ),
            r is Ok ==> forall|t: Seq<char>|
                #[trigger] token_total(r->Ok_0.entries@, t) == token_total(self.shares.entries@, t) + if self.is_active_token(t) {
                    self.emitted(weights@) as int
                } else {
                    0
                },
    {
        let ghost b = self.shares;
        let ghost ps = self.participants@;
        let ghost ts = self.drip_tokens@;
        proof {
            lemma_names_unique(ps);
            lemma_names_unique(ts);
        }
        let mut ledger = self.shares.duplicate();
        let mut i: usize = 0;
        while i < self.participants.len()
            invariant
                self.wf(),
                weights@.len() == ps.len(),
                ps == self.participants@,
                ts == self.drip_tokens@,
                b == self.shares,
                i <= ps.len(),
                ledger.wf(),
                forall|k: int, m2: int|
                    0 <= k < ps.len() && 0 <= m2 < ts.len() ==> #[trigger] ledger.shares_of(
                        ps[k]@,
                        ts[m2]@,
                    ) == b.shares_of(ps[k]@, ts[m2]@) + if k < i {
                        self.weight_in_cycle(weights@, k)
                    } else {
                        0
                    },
                forall|k: int, m2: int|
                    0 <= k < ps.len() && 0 <= m2 < ts.len() ==> #[trigger] ledger.has(ps[k]@, ts[m2]@)
                        == (b.has(ps[k]@, ts[m2]@) || (k < i && self.eligible(weights@, k))),
                forall|p: Seq<char>, t: Seq<char>|
                    !(names(ps).contains(p) && names(ts).contains(t)) ==> #[trigger] ledger.shares_of(p, t)
                        == b.shares_of(p, t),
                forall|p: Seq<char>, t: Seq<char>|
                    !(names(ps).contains(p) && names(ts).contains(t)) ==> #[trigger] ledger.has(p, t)
                        == b.has(p, t),
                forall|k: int, m2: int|
                    0 <= k < i && 0 <= m2 < ts.len() && self.eligible(weights@, k) ==> b.shares_of(
                        #[trigger] ps[k]@,
                        #[trigger] ts[m2]@,
                    ) + weights@[k] <= u128::MAX,
                forall|e: int|
                    0 <= e < ledger.entries@.len() ==> self.has_pool(
                        (#[trigger] ledger.entries@[e]).token@,
                    ),
                forall|t: Seq<char>|
                    #[trigger] token_total(ledger.entries@, t) == token_total(b.entries@, t) + if names(ts).contains(t) {
                        self.emitted_upto(weights@, i as int) as int
                    } else {
                        0
                    },
            decreases ps.len() - i,
        {
            proof {
                assert(self.emitted_upto(weights@, i + 1) == self.emitted_upto(weights@, i as int) + self.weight_in_cycle(weights@, i as int));
            }
            if weights[i] >= self.config.min_staking_amount {
                let ghost l0 = ledger;
                proof {
                    lemma_names_unique(ps);
                    lemma_names_unique(ts);
                }
                let res = update_participant_shares(&mut ledger, &self.participants[i], &self.drip_tokens, weights[i]);
                if res.is_err() {
                    proof {
                        let m = choose|m: int|
                            0 <= m < ts.len() && !(l0.shares_of(ps[i as int]@, #[trigger] ts[m]@) + weights@[i as int] <= u128::MAX);
                        assert(l0.shares_of(ps[i as int]@, ts[m]@) == b.shares_of(ps[i as int]@, ts[m]@));
                        assert(self.shares.shares_of(
                            self.participants@[i as int]@,
                            self.drip_tokens@[m]@,
                        ) + weights@[i as int] > u128::MAX);
                    }
                    return Err(ContractError::Overflow {});
                }
                proof {
                    assert forall|k: int, m2: int|
                        #![trigger ledger.shares_of(ps[k]@, ts[m2]@)]
                        #![trigger ledger.has(ps[k]@, ts[m2]@)]
                        0 <= k < ps.len() && 0 <= m2 < ts.len() implies ledger.shares_of(
                            ps[k]@,
                            ts[m2]@,
                        ) == b.shares_of(ps[k]@, ts[m2]@) + (if k < i + 1 {
                            self.weight_in_cycle(weights@, k)
                        } else {
                            0
                        }) && ledger.has(ps[k]@, ts[m2]@) == (b.has(ps[k]@, ts[m2]@) || (k < i + 1
                            && self.eligible(weights@, k))) by {
                        assert(l0.shares_of(ps[k]@, ts[m2]@) == b.shares_of(ps[k]@, ts[m2]@) + if k < i {
                            self.weight_in_cycle(weights@, k)
                        } else {
                            0
                        });
                        assert(l0.has(ps[k]@, ts[m2]@) == (b.has(ps[k]@, ts[m2]@) || (k < i && self.eligible(weights@, k))));
                        assert(names(ts)[m2] == ts[m2]@);
                        assert(names(self.drip_tokens@).contains(ts[m2]@));
                        if k != i {
                            assert(ps[k]@ != ps[i as int]@);
                            assert(ledger.shares_of(ps[k]@, ts[m2]@) == l0.shares_of(ps[k]@, ts[m2]@));
                            assert(ledger.has(ps[k]@, ts[m2]@) == l0.has(ps[k]@, ts[m2]@));
                        } else {
                            assert(self.participants@[i as int]@ == ps[k]@);
                            assert(ledger.shares_of(ps[k]@, ts[m2]@) == l0.shares_of(ps[k]@, ts[m2]@) + weights@[i as int]);
                            assert(ledger.has(ps[k]@, ts[m2]@));
                        }
                    }
                    assert forall|p: Seq<char>, t: Seq<char>|
                        #![trigger ledger.shares_of(p, t)]
                        #![trigger ledger.has(p, t)]
                        !(names(ps).contains(p) && names(ts).contains(t)) implies ledger.shares_of(p, t)
                            == b.shares_of(p, t) && ledger.has(p, t) == b.has(p, t) by {
                        assert(l0.shares_of(p, t) == b.shares_of(p, t));
                        assert(l0.has(p, t) == b.has(p, t));
                        if p == ps[i as int]@ {
                            assert(names(ps)[i as int] == p);
                            assert(!names(self.drip_tokens@).contains(t));
                            assert(ledger.shares_of(p, t) == l0.shares_of(p, t));
                            assert(ledger.has(p, t) == l0.has(p, t));
                        } else {
                            assert(ledger.shares_of(p, t) == l0.shares_of(p, t));
                            assert(ledger.has(p, t) == l0.has(p, t));
                        }
                    }
                    assert forall|m2: int| 0 <= m2 < ts.len() implies b.shares_of(
                        #[trigger] ps[i as int]@,
                        #[trigger] ts[m2]@,
                    ) + weights@[i as int] <= u128::MAX by {
                        assert(l0.shares_of(ps[i as int]@, ts[m2]@) == b.shares_of(ps[i as int]@, ts[m2]@));
                    }
                    assert forall|e: int|
                        0 <= e < ledger.entries@.len() implies self.has_pool(
                            (#[trigger] ledger.entries@[e]).token@,
                        ) by {
                        if l0.entries@.contains(ledger.entries@[e]) {
                            let e0 = choose|e0: int| 0 <= e0 < l0.entries@.len() && l0.entries@[e0] == ledger.entries@[e];
                            assert(self.has_pool(l0.entries@[e0].token@));
                        } else {
                            let t = ledger.entries@[e].token@;
                            let m = choose|m: int| 0 <= m < names(ts).len() && names(ts)[m] == t;
                            assert(self.has_pool(ts[m]@));
                        }
                    }
                }
            }
            i = i + 1;
        }
        proof {
            self.lemma_accrued_from_indices(b, ledger, weights@);
        }
        Ok(ledger)
    }

    /// The pair-by-index description of a cycle's credits gives `accrued`.
    proof fn lemma_accrued_from_indices(self, b: ShareLedger, l: ShareLedger, weights: Seq<u128>)
        requires
            self.wf(),
            weights.len() == self.participants@.len(),
            forall|k: int, m2: int|
                0 <= k < self.participants@.len() && 0 <= m2 < self.drip_tokens@.len()
                    ==> #[trigger] l.shares_of(self.participants@[k]@, self.drip_tokens@[m2]@)
                    == b.shares_of(self.participants@[k]@, self.drip_tokens@[m2]@)
                    + self.weight_in_cycle(weights, k),
            forall|k: int, m2: int|
                0 <= k < self.participants@.len() && 0 <= m2 < self.drip_tokens@.len()
                    ==> #[trigger] l.has(self.participants@[k]@, self.drip_tokens@[m2]@)
                    == (b.has(self.participants@[k]@, self.drip_tokens@[m2]@) || self.eligible(weights, k)),
            forall|p: Seq<char>, t: Seq<char>|
                !(names(self.participants@).contains(p) && names(self.drip_tokens@).contains(t))
                    ==> #[trigger] l.shares_of(p, t) == b.shares_of(p, t),
            forall|p: Seq<char>, t: Seq<char>|
                !(names(self.participants@).contains(p) && names(self.drip_tokens@).contains(t))
                    ==> #[trigger] l.has(p, t) == b.has(p, t),
        ensures
            self.accrued(b, l, weights),
    {
        let ps = self.participants@;
        let ts = self.drip_tokens@;
        lemma_names_unique(ps);
        lemma_names_unique(ts);
        assert forall|p: Seq<char>, t: Seq<char>|
            #[trigger] l.shares_of(p, t) == b.shares_of(p, t) + self.cycle_credit(weights, p, t)
            && l.has(p, t) == (b.has(p, t) || self.credited(weights, p, t)) by {
            if names(ps).contains(p) && names(ts).contains(t) {
                let k = choose|k: int| 0 <= k < ps.len() && #[trigger] ps[k]@ == p;
                let m = choose|m: int| 0 <= m < ts.len() && #[trigger] ts[m]@ == t;
                assert(l.shares_of(ps[k]@, ts[m]@) == b.shares_of(ps[k]@, ts[m]@) + self.weight_in_cycle(weights, k));
                assert(l.has(ps[k]@, ts[m]@) == (b.has(ps[k]@, ts[m]@) || self.eligible(weights, k)));
                if self.credited(weights, p, t) {
                    let k2 = choose|k2: int|
                        0 <= k2 < ps.len() && #[trigger] ps[k2]@ == p && self.eligible(weights, k2);
                    if k2 != k {
                        assert(ps[k2]@ != ps[k]@);
                    }
                } else {
                    assert(!self.eligible(weights, k));
                }
            } else {
                assert(l.shares_of(p, t) == b.shares_of(p, t));
                assert(l.has(p, t) == b.has(p, t));
                if self.credited(weights, p, t) {
                    let k2 = choose|k2: int|
                        0 <= k2 < ps.len() && #[trigger] ps[k2]@ == p && self.eligible(weights, k2);
                    assert(names(ps).contains(p));
                }
            }
        }
    }


    /// The deadline after a cycle at `now`.
    pub open spec fn next_deadline(self, now: u64) -> int {
        next_time(self.config.next_distribution_time, now, self.config.epoch_duration)
    }

    proof fn lemma_next_deadline_too_late(self, now: u64)
        requires
            self.config.epoch_duration > 0,
            self.config.next_distribution_time <= now,
            (now - self.config.next_distribution_time) / (self.config.epoch_duration as int) + 1 > u64::MAX,
        ensures
            self.next_deadline(now) > u64::MAX,
    {
        let q1 = (now - self.config.next_distribution_time) / (self.config.epoch_duration as int) + 1;
        let d = self.config.epoch_duration as int;
        assert(q1 * d >= q1) by (nonlinear_arith)
            requires
                d >= 1,
                q1 >= 0,
        ;
    }

    /// A token of `toks` whose pool keeps epochs after one more release is retained.
    proof fn lemma_retained_keeps(self, toks: Seq<Seq<char>>, y: Seq<char>)
        requires
            toks.contains(y),
            self.pool_of(y).epoch + 1 < self.pool_of(y).epochs_number,
        ensures
            self.retained(toks).contains(y),
        decreases toks.len(),
    {
        let p = toks.drop_last();
        if toks.last() == y {
            let w = self.retained(p);
            assert(w.push(y)[w.len() as int] == y);
        } else {
            let k = choose|k: int| 0 <= k < toks.len() && toks[k] == y;
            assert(p[k] == y);
            self.lemma_retained_keeps(p, y);
            let w = self.retained(p);
            let k2 = choose|k2: int| 0 <= k2 < w.len() && w[k2] == y;
            if self.pool_of(toks.last()).epoch + 1 < self.pool_of(toks.last()).epochs_number {
                assert(w.push(toks.last())[k2] == y);
            }
        }
    }

    /// Retaining keeps a sequence free of duplicates, and keeps only elements
    /// of it that pass the test.
    proof fn lemma_retained(self, toks: Seq<Seq<char>>)
        requires
            toks.no_duplicates(),
        ensures
            self.retained(toks).no_duplicates(),
            forall|y: Seq<char>| #[trigger] self.retained(toks).contains(y) ==> toks.contains(y)
                && self.pool_of(y).epoch + 1 < self.pool_of(y).epochs_number,
        decreases toks.len(),
    {
        if toks.len() > 0 {
            let p = toks.drop_last();
            assert(p.no_duplicates()) by {
                assert forall|a: int, b: int| 0 <= a < b < p.len() implies p[a] != p[b] by {
                    assert(toks[a] != toks[b]);
                }
            }
            self.lemma_retained(p);
            let w = self.retained(p);
            assert forall|y: Seq<char>| p.contains(y) implies toks.contains(y) by {
                let k = choose|k: int| 0 <= k < p.len() && p[k] == y;
                assert(toks[k] == y);
            }
            if self.pool_of(toks.last()).epoch + 1 < self.pool_of(toks.last()).epochs_number {
                assert(!w.contains(toks.last())) by {
                    if w.contains(toks.last()) {
                        let k = choose|k: int| 0 <= k < p.len() && p[k] == toks.last();
                        assert(toks[k] != toks[toks.len() - 1]);
                    }
                }
                assert forall|a: int, b: int| 0 <= a < b < w.push(toks.last()).len() implies w.push(
                    toks.last(),
                )[a] != w.push(toks.last())[b] by {
                    if b == w.len() {
                        assert(w.contains(w[a]));
                    }
                }
                assert forall|y: Seq<char>| #[trigger] w.push(toks.last()).contains(y) implies toks.contains(y)
                    && self.pool_of(y).epoch + 1 < self.pool_of(y).epochs_number by {
                    let k = choose|k: int| 0 <= k < w.push(toks.last()).len() && w.push(toks.last())[k] == y;
                    if k < w.len() {
                        assert(w[k] == y);
                        assert(w.contains(y));
                    } else {
                        assert(toks[toks.len() - 1] == y);
                    }
                }
            }
        }
    }

    /// The first error, in the order of `toks`, that releasing an epoch of
    /// their pools with `emitted` new shares each would meet.
    pub open spec fn pools_error(self, toks: Seq<Seq<char>>, emitted: u128) -> Option<ContractError>
        decreases toks.len(),
    {
        if toks.len() == 0 {
            None
        } else {
            match self.pools_error(toks.drop_last(), emitted) {
                Some(e) => Some(e),
                None => self.pool_of(toks.last()).advance_error(emitted),
            }
        }
    }

    /// An error met in a prefix of `toks` is the first error of `toks`; no
    /// error in `toks` means none in any prefix.
    proof fn lemma_pools_error_prefix(self, toks: Seq<Seq<char>>, i: int, emitted: u128)
        requires
            0 <= i <= toks.len(),
        ensures
            self.pools_error(toks.take(i), emitted) is Some ==> self.pools_error(toks, emitted)
                == self.pools_error(toks.take(i), emitted),
            self.pools_error(toks, emitted) is None ==> self.pools_error(toks.take(i), emitted) is None,
        decreases toks.len(),
    {
        if i == toks.len() {
            assert(toks.take(i) =~= toks);
        } else {
            assert(toks.drop_last().take(i) =~= toks.take(i));
            self.lemma_pools_error_prefix(toks.drop_last(), i, emitted);
        }
    }

    /// Without an error in `toks`, every pool of `toks` can release an epoch.
    proof fn lemma_pools_error_none(self, toks: Seq<Seq<char>>, emitted: u128)
        requires
            self.pools_error(toks, emitted) is None,
        ensures
            forall|i: int| 0 <= i < toks.len() ==> (#[trigger] self.pool_of(toks[i])).advance_error(emitted) is None,
        decreases toks.len(),
    {
        if toks.len() > 0 {
            self.lemma_pools_error_none(toks.drop_last(), emitted);
            assert forall|i: int| 0 <= i < toks.len() implies (#[trigger] self.pool_of(toks[i])).advance_error(emitted) is None by {
                if i < toks.len() - 1 {
                    assert(toks.drop_last()[i] == toks[i]);
                }
            }
        }
    }

    /// In a consistent state, active pools that can take the new shares meet
    /// no error.
    proof fn lemma_pools_fit(self, toks: Seq<Seq<char>>, emitted: u128)
        requires
            self.wf(),
            forall|i: int| 0 <= i < toks.len() ==> self.is_active_token(#[trigger] toks[i]),
            forall|i: int| 0 <= i < toks.len() ==> (#[trigger] self.pool_of(toks[i])).issued_shares + emitted <= u128::MAX,
        ensures
            self.pools_error(toks, emitted) is None,
        decreases toks.len(),
    {
        if toks.len() > 0 {
            let p = toks.drop_last();
            assert forall|i: int| 0 <= i < p.len() implies self.is_active_token(#[trigger] p[i]) by {
                assert(p[i] == toks[i]);
            }
            assert forall|i: int| 0 <= i < p.len() implies (#[trigger] self.pool_of(p[i])).issued_shares + emitted <= u128::MAX by {
                assert(p[i] == toks[i]);
            }
            self.lemma_pools_fit(p, emitted);
            let t = toks[toks.len() - 1];
            assert(self.is_active_token(t));
            let k = choose|k: int| 0 <= k < names(self.drip_tokens@).len() && names(self.drip_tokens@)[k] == t;
            assert(self.drip_tokens@[k]@ == t);
            assert(self.has_pool(self.drip_tokens@[k]@));
            let j = self.pool_pos(t);
            assert(self.drip_pools@[j].wf());
            crate::state::lemma_active_can_advance(self.pool_of(t), emitted);
        }
    }

    /// Releases an epoch in every active pool, each issuing `emitted` shares,
    /// and returns the active tokens whose pool still has epochs left. Fails,
    /// changing nothing, with the error of the first active pool, in the order
    /// of the index, that cannot release: `InvalidActiveDripPool` for an
    /// exhausted pool, `DripPoolHasNotENoughFunds` for one holding less than
    /// a tranche, `Overflow` when a counter would leave its range.
    pub fn update_drip_pools(&mut self, emitted: u128) -> (r: Result<Vec<String>, ContractError>)
        requires
            old(self).pools_unique(),
            names(old(self).drip_tokens@).no_duplicates(),
            forall|k: int| 0 <= k < old(self).drip_tokens@.len() ==> old(self).has_pool(#[trigger] old(self).drip_tokens@[k]@),
        ensures
            r is Err <==> old(self).pools_error(names(old(self).drip_tokens@), emitted) is Some,
            r is Err ==> r == Err::<Vec<String>, ContractError>(
                old(self).pools_error(names(old(self).drip_tokens@), emitted)->Some_0,
            ),
            r is Err ==> *final(self) == *old(self),
            r is Ok ==> final(self).drip_pools@.len() == old(self).drip_pools@.len(),
            r is Ok ==> forall|j: int|
                0 <= j < old(self).drip_pools@.len() ==> #[trigger] final(self).drip_pools@[j] == if old(
                    self,
                ).is_active_token(old(self).drip_pools@[j].token_id()) {
                    old(self).drip_pools@[j].advanced(emitted)
                } else {
                    old(self).drip_pools@[j]
                },
            r is Ok ==> forall|j: int|
                0 <= j < final(self).drip_pools@.len() && old(self).drip_pools@[j].wf() ==> (
                #[trigger] final(self).drip_pools@[j]).wf(),
            r is Ok ==> names(r->Ok_0@) == old(self).retained(names(old(self).drip_tokens@)),
            final(self).config == old(self).config,
            final(self).participants == old(self).participants,
            final(self).drip_tokens == old(self).drip_tokens,
            final(self).shares == old(self).shares,
    {
        let ghost before = *self;
        let ghost orig = self.drip_pools@;
        let ghost ts = names(self.drip_tokens@);
        proof {
            lemma_names_unique(before.drip_tokens@);
        }
        // Every pool must be able to release before any does.
        let mut m: usize = 0;
        while m < self.drip_tokens.len()
            invariant
                *self == before,
                ts == names(before.drip_tokens@),
                before.pools_unique(),
                forall|k: int| 0 <= k < before.drip_tokens@.len() ==> before.has_pool(#[trigger] before.drip_tokens@[k]@),
                m <= ts.len(),
                before.pools_error(ts.take(m as int), emitted) is None,
            decreases ts.len() - m,
        {
            let ghost tm = self.drip_tokens@[m as int]@;
            proof {
                assert(ts[m as int] == tm);
                assert(before.has_pool(before.drip_tokens@[m as int]@));
            }
            let j = match self.find_pool(&self.drip_tokens[m]) {
                Some(j) => j,
                None => {
                    proof {
                        let j0 = before.pool_pos(tm);
                        assert(self.drip_pools@[j0].token_id() == tm);
                    }
                    0
                },
            };
            proof {
                before.lemma_pool_at(j as int);
                assert(ts.take(m + 1).drop_last() =~= ts.take(m as int));
                assert(ts.take(m + 1).last() == tm);
            }
            let mut probe = self.drip_pools[j].duplicate();
            if let Err(e) = probe.advance_epoch(emitted) {
                proof {
                    before.lemma_pools_error_prefix(ts, m + 1, emitted);
                }
                return Err(e);
            }
            m = m + 1;
        }
        proof {
            assert(ts.take(ts.len() as int) =~= ts);
            before.lemma_pools_error_none(ts, emitted);
        }
        let mut kept: Vec<String> = Vec::new();
        let mut m: usize = 0;
        while m < self.drip_tokens.len()
            invariant
                before.pools_unique(),
                forall|k: int| 0 <= k < before.drip_tokens@.len() ==> before.has_pool(#[trigger] before.drip_tokens@[k]@),
                forall|a: int, c: int|
                    #![trigger before.drip_tokens@[a], before.drip_tokens@[c]]
                    0 <= a < before.drip_tokens@.len() && 0 <= c < before.drip_tokens@.len() && a != c
                        ==> before.drip_tokens@[a]@ != before.drip_tokens@[c]@,
                forall|i: int| 0 <= i < ts.len() ==> (#[trigger] before.pool_of(ts[i])).advance_error(emitted) is None,
                before.pools_error(ts, emitted) is None,
                orig == before.drip_pools@,
                ts == names(before.drip_tokens@),
                self.config == before.config,
                self.participants == before.participants,
                self.drip_tokens == before.drip_tokens,
                self.shares == before.shares,
                m <= ts.len(),
                self.drip_pools@.len() == orig.len(),
                forall|j: int|
                    0 <= j < orig.len() ==> #[trigger] self.drip_pools@[j] == if ts.take(m as int).contains(
                        orig[j].token_id(),
                    ) {
                        orig[j].advanced(emitted)
                    } else {
                        orig[j]
                    },
                forall|j: int|
                    0 <= j < orig.len() && ts.take(m as int).contains(orig[j].token_id()) && orig[j].wf() ==> (
                    #[trigger] self.drip_pools@[j]).wf(),
                names(kept@) == before.retained(ts.take(m as int)),
            decreases ts.len() - m,
        {
            proof {
                assert(ts[m as int] == before.drip_tokens@[m as int]@);
                assert(before.has_pool(before.drip_tokens@[m as int]@));
            }
            let ghost tm = self.drip_tokens@[m as int]@;
            let j = match self.find_pool(&self.drip_tokens[m]) {
                Some(j) => j,
                None => {
                    proof {
                        let j0 = before.pool_pos(tm);
                        assert(orig[j0].token_id() == tm);
                        assert(self.drip_pools@[j0].token_id() == tm);
                    }
                    0
                },
            };
            proof {
                assert(orig[j as int].token_id() == tm);
                before.lemma_pool_at(j as int);
                assert(!ts.take(m as int).contains(tm)) by {
                    if ts.take(m as int).contains(tm) {
                        let k = choose|k: int| 0 <= k < m && ts.take(m as int)[k] == tm;
                        assert(before.drip_tokens@[k]@ == before.drip_tokens@[m as int]@);
                    }
                }
                assert(self.drip_pools@[j as int] == orig[j as int]);
                assert(before.pool_of(ts[m as int]).advance_error(emitted) is None);
            }
            let mut pool = self.drip_pools[j].duplicate();
            let still = match pool.advance_epoch(emitted) {
                Ok(b) => b,
                Err(e) => return Err(e),
            };
            self.drip_pools.set(j, pool);
            if still {
                kept.push(self.drip_tokens[m].clone());
            }
            proof {
                let m1: int = m + 1;
                assert(ts.take(m1).drop_last() =~= ts.take(m as int));
                assert(ts.take(m1).last() == tm);
                assert forall|y: Seq<char>| #[trigger] ts.take(m1).contains(y) <==> (ts.take(m as int).contains(y) || y == tm) by {
                    if ts.take(m1).contains(y) {
                        let k = choose|k: int| 0 <= k < m1 && ts.take(m1)[k] == y;
                        if k < m {
                            assert(ts.take(m as int)[k] == y);
                        }
                    }
                    if ts.take(m as int).contains(y) {
                        let k = choose|k: int| 0 <= k < m && ts.take(m as int)[k] == y;
                        assert(ts.take(m1)[k] == y);
                    }
                    if y == tm {
                        assert(ts.take(m1)[m as int] == y);
                    }
                }
                assert forall|j2: int| 0 <= j2 < orig.len() && j2 != j implies orig[j2].token_id() != tm by {
                    assert(orig[j2].token_id() != orig[j as int].token_id());
                }
                if still {
                    assert(names(kept@) =~= names(kept@).drop_last().push(tm));
                }
            }
            m = m + 1;
        }
        proof {
            assert(ts.take(ts.len() as int) =~= ts);
        }
        Ok(kept)
    }

    /// Runs one distribution cycle at time `now`, where `weights[k]` is the
    /// eligibility weight of the `k`-th participant. Fails with
    /// `ZeroActiveDripPool` when no pool is active, with `NoDistributionTime`
    /// before the deadline, with `ZeroEpochDuration` when the epoch length is
    /// zero, with `Overflow` when a counter would leave its range; on failure
    /// nothing changes. Otherwise every participant whose
    /// weight meets the minimum is credited that weight in every active pool,
    /// every active pool releases an epoch and issues the sum of the credited
    /// weights, exhausted pools leave the active index, the deadline moves to
    /// the first whole epoch after `now`, and that sum is returned.
    pub fn execute_distribute_shares(&mut self, now: u64, weights: &Vec<u128>) -> (r: Result<u128, ContractError>)
        requires
            old(self).wf(),
            weights@.len() == old(self).participants@.len(),
        ensures
            final(self).wf(),
            old(self).drip_tokens@.len() == 0 ==> r == Err::<u128, ContractError>(
                ContractError::ZeroActiveDripPool {},
            ),
            old(self).drip_tokens@.len() > 0 && now < old(self).config.next_distribution_time ==> r
                == Err::<u128, ContractError>(ContractError::NoDistributionTime {}),
            old(self).drip_tokens@.len() > 0 && now >= old(self).config.next_distribution_time
                && old(self).config.epoch_duration == 0 ==> r == Err::<u128, ContractError>(
                ContractError::ZeroEpochDuration {},
            ),
            old(self).drip_tokens@.len() > 0 && now >= old(self).config.next_distribution_time && old(
                self,
            ).config.epoch_duration > 0 && (old(self).cycle_overflows(weights@) || old(self).next_deadline(now)
                > u64::MAX) ==> r == Err::<
                u128,
                ContractError,
            >(ContractError::Overflow {}),
            r is Ok <==> old(self).drip_tokens@.len() > 0 && now >= old(
                self,
            ).config.next_distribution_time && old(self).config.epoch_duration > 0 && !old(
                self,
            ).cycle_overflows(weights@) && old(self).next_deadline(now) <= u64::MAX,
            r is Err ==> *final(self) == *old(self),
            r is Ok ==> r->Ok_0 == old(self).emitted(weights@),
            r is Ok ==> old(self).accrued(old(self).shares, final(self).shares, weights@),
            r is Ok ==> final(self).drip_pools@.len() == old(self).drip_pools@.len(),
            r is Ok ==> forall|j: int|
                0 <= j < old(self).drip_pools@.len() ==> #[trigger] final(self).drip_pools@[j] == if old(
                    self,
                ).is_active_token(old(self).drip_pools@[j].token_id()) {
                    old(self).drip_pools@[j].advanced(r->Ok_0)
                } else {
                    old(self).drip_pools@[j]
                },
            r is Ok ==> names(final(self).drip_tokens@) == old(self).retained(
                names(old(self).drip_tokens@),
            ),
            r is Ok ==> final(self).config.next_distribution_time == old(self).next_deadline(now),
            r is Ok ==> now < final(self).config.next_distribution_time <= now + old(
                self,
            ).config.epoch_duration,
            r is Ok ==> final(self).config.owner == old(self).config.owner
                && final(self).config.min_staking_amount == old(self).config.min_staking_amount
                && final(self).config.epoch_duration == old(self).config.epoch_duration,
            r is Ok ==> final(self).participants == old(self).participants,
    {
        if self.drip_tokens.len() == 0 {
            return Err(ContractError::ZeroActiveDripPool {});
        }
        if now < self.config.next_distribution_time {
            return Err(ContractError::NoDistributionTime {});
        }
        if self.config.epoch_duration == 0 {
            return Err(ContractError::ZeroEpochDuration {});
        }
        let emitted = match self.cycle_emitted(weights) {
            Some(e) => e,
            None => return Err(ContractError::Overflow {}),
        };
        let next = self.config.next_distribution_time;
        let duration = self.config.epoch_duration;
        let steps = match ((now - next) / duration).checked_add(1) {
            Some(v) => v,
            None => {
                proof {
                    self.lemma_next_deadline_too_late(now);
                }
                return Err(ContractError::Overflow {});
            },
        };
        let advance = match steps.checked_mul(duration) {
            Some(v) => v,
            None => return Err(ContractError::Overflow {}),
        };
        let next_deadline = match next.checked_add(advance) {
            Some(v) => v,
            None => return Err(ContractError::Overflow {}),
        };
        let ledger = match self.accrue_cycle(weights) {
            Ok(l) => l,
            Err(e) => return Err(e),
        };
        if !self.pools_fit(emitted) {
            return Err(ContractError::Overflow {});
        }
        let ghost before = *self;
        proof {
            lemma_names_unique(self.drip_tokens@);
            let ts = names(self.drip_tokens@);
            assert forall|i: int| 0 <= i < ts.len() implies self.is_active_token(#[trigger] ts[i]) by {
                assert(ts.contains(ts[i]));
            }
            assert forall|i: int| 0 <= i < ts.len() implies (#[trigger] self.pool_of(ts[i])).issued_shares + emitted
                <= u128::MAX by {
                assert(ts[i] == self.drip_tokens@[i]@);
            }
            self.lemma_pools_fit(ts, emitted);
        }
        let kept = match self.update_drip_pools(emitted) {
            Ok(k) => k,
            Err(e) => return Err(e),
        };
        self.drip_tokens = kept;
        self.shares = ledger;
        self.config.next_distribution_time = next_deadline;
        proof {
            lemma_next_deadline(next, now, duration);
        }
        proof {
            self.lemma_cycle_wf(before, emitted);
        }
        Ok(emitted)
    }

    /// The state after a cycle is consistent.
    proof fn lemma_cycle_wf(self, before: DripState, emitted: u128)
        requires
            before.wf(),
            self.config.epoch_duration == before.config.epoch_duration,
            self.participants == before.participants,
            self.drip_pools@.len() == before.drip_pools@.len(),
            forall|j: int|
                0 <= j < before.drip_pools@.len() ==> #[trigger] self.drip_pools@[j] == if before.is_active_token(
                    before.drip_pools@[j].token_id(),
                ) {
                    before.drip_pools@[j].advanced(emitted)
                } else {
                    before.drip_pools@[j]
                },
            forall|j: int| 0 <= j < self.drip_pools@.len() ==> (#[trigger] self.drip_pools@[j]).wf(),
            names(self.drip_tokens@) == before.retained(names(before.drip_tokens@)),
            self.shares.wf(),
            forall|i: int|
                0 <= i < self.shares.entries@.len() ==> before.has_pool(
                    (#[trigger] self.shares.entries@[i]).token@,
                ),
            !before.pool_overflows(emitted as int),
            forall|t: Seq<char>|
                #[trigger] token_total(self.shares.entries@, t) == token_total(before.shares.entries@, t) + if before.is_active_token(t) {
                    emitted as int
                } else {
                    0
                },
        ensures
            self.wf(),
    {
        let n = before.drip_pools@.len();
        assert forall|j: int| 0 <= j < n implies #[trigger] self.drip_pools@[j].token_id()
            == before.drip_pools@[j].token_id() by {
            assert(self.drip_pools@[j] == if before.is_active_token(before.drip_pools@[j].token_id()) {
                before.drip_pools@[j].advanced(emitted)
            } else {
                before.drip_pools@[j]
            });
        }
        assert(self.pools_unique()) by {
            assert forall|a: int, b: int|
                #![trigger self.drip_pools@[a], self.drip_pools@[b]]
                0 <= a < n && 0 <= b < n && a != b implies self.drip_pools@[a].token_id()
                != self.drip_pools@[b].token_id() by {
                assert(self.drip_pools@[a].token_id() == before.drip_pools@[a].token_id());
                assert(self.drip_pools@[b].token_id() == before.drip_pools@[b].token_id());
                assert(before.drip_pools@[a].token_id() != before.drip_pools@[b].token_id());
            }
        }
        assert forall|t: Seq<char>| before.has_pool(t) implies self.has_pool(t) && self.pool_pos(t)
            == before.pool_pos(t) by {
            let j = before.pool_pos(t);
            assert(self.drip_pools@[j].token_id() == before.drip_pools@[j].token_id());
            self.lemma_pool_at(j);
        }
        before.lemma_retained(names(before.drip_tokens@));
        lemma_names_unique(self.drip_tokens@);
        lemma_names_unique(before.drip_tokens@);
        assert forall|k: int| 0 <= k < self.drip_tokens@.len() implies self.has_pool(
            #[trigger] self.drip_tokens@[k]@,
        ) && self.pool_of(self.drip_tokens@[k]@).is_active() by {
            let t = self.drip_tokens@[k]@;
            assert(names(self.drip_tokens@)[k] == t);
            assert(names(self.drip_tokens@).contains(t));
            assert(names(before.drip_tokens@).contains(t));
            let k0 = choose|k0: int| 0 <= k0 < before.drip_tokens@.len() && #[trigger] before.drip_tokens@[k0]@ == t;
            assert(before.has_pool(before.drip_tokens@[k0]@));
            let j = before.pool_pos(t);
            before.lemma_pool_at(j);
            assert(before.is_active_token(before.drip_pools@[j].token_id()));
        }
        assert forall|i: int| 0 <= i < self.shares.entries@.len() implies self.has_pool(
            (#[trigger] self.shares.entries@[i]).token@,
        ) by {
            assert(before.has_pool(self.shares.entries@[i].token@));
        }
        assert forall|j: int|
            0 <= j < n && (#[trigger] self.drip_pools@[j]).is_active() implies self.is_active_token(
                self.drip_pools@[j].token_id(),
            ) by {
            let id = before.drip_pools@[j].token_id();
            assert(self.drip_pools@[j].token_id() == id);
            if before.is_active_token(id) {
                before.lemma_pool_at(j);
                before.lemma_retained_keeps(names(before.drip_tokens@), id);
            } else {
                assert(before.drip_pools@[j].is_active() ==> before.is_active_token(id));
            }
        }
        assert forall|j: int| 0 <= j < n implies (#[trigger] self.drip_pools@[j]).issued_shares == token_total(
            self.shares.entries@,
            self.drip_pools@[j].token_id(),
        ) by {
            let id = before.drip_pools@[j].token_id();
            assert(before.drip_pools@[j].issued_shares == token_total(before.shares.entries@, id));
            assert(self.drip_pools@[j].token_id() == id);
            assert(token_total(self.shares.entries@, id) == token_total(before.shares.entries@, id) + if before.is_active_token(id) {
                emitted as int
            } else {
                0
            });
            if before.is_active_token(id) {
                let m = choose|m: int| 0 <= m < names(before.drip_tokens@).len() && names(before.drip_tokens@)[m] == id;
                assert(before.drip_tokens@[m]@ == id);
                before.lemma_pool_at(j);
                assert(before.pool_of(before.drip_tokens@[m]@).issued_shares + emitted <= u128::MAX);
            }
        }
    }
}

} // verus!

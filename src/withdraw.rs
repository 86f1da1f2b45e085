use vstd::prelude::*;

use crate::contract::DripState;
use crate::error::ContractError;
use crate::ledger::token_total;
use crate::state::TransferMsg;

verus! {

/// Transfers made in the order of a participant's listed entries pay for
/// exactly those entries, in the same order.
proof fn lemma_payouts(before: DripState, sender: String, list: Seq<(String, u128)>, msgs: Seq<TransferMsg>)
    requires
        before.wf(),
        forall|k2: int| 0 <= k2 < list.len() ==> before.shares.has(sender@, #[trigger] list[k2].0@),
        forall|t: Seq<char>| before.shares.has(sender@, t) ==> exists|k2: int|
            0 <= k2 < list.len() && #[trigger] list[k2].0@ == t,
        crate::ledger::sorted_by_token(list),
        msgs.len() == list.len(),
        forall|k2: int| 0 <= k2 < list.len() ==> #[trigger] msgs[k2] == before.payout(sender, list[k2].0@),
    ensures
        forall|k: int| 0 <= k < msgs.len() ==> before.pays_for(sender, #[trigger] msgs[k]),
        before.pays_every_entry(sender, msgs),
        forall|k: int, l: int|
            0 <= k < l < msgs.len() ==> crate::ledger::token_lt(
                #[trigger] msgs[k].token(),
                #[trigger] msgs[l].token(),
            ),
{
    assert forall|k2: int| 0 <= k2 < list.len() implies #[trigger] msgs[k2].token() == list[k2].0@ by {
        before.lemma_ledger_token_has_pool(sender@, list[k2].0@);
        let j = before.pool_pos(list[k2].0@);
        assert(before.drip_pools@[j].token_id() == list[k2].0@);
    }
    assert forall|k: int| 0 <= k < msgs.len() implies before.pays_for(sender, #[trigger] msgs[k]) by {
        assert(msgs[k].token() == list[k].0@);
    }
    assert forall|t: Seq<char>| before.shares.has(sender@, t) implies exists|k: int|
        0 <= k < msgs.len() && #[trigger] msgs[k].token() == t by {
        let k2 = choose|k2: int| 0 <= k2 < list.len() && #[trigger] list[k2].0@ == t;
        assert(msgs[k2].token() == list[k2].0@);
    }
    assert forall|k: int, l: int|
        0 <= k < l < msgs.len() implies crate::ledger::token_lt(
            #[trigger] msgs[k].token(),
            #[trigger] msgs[l].token(),
        ) by {
        assert(msgs[k].token() == list[k].0@);
        assert(msgs[l].token() == list[l].0@);
    }

}

impl DripState {
    /// A withdrawal by `p` would burn more shares of some pool than it has issued.
    pub open spec fn withdrawal_underflows(self, p: Seq<char>) -> bool {
        exists|t: Seq<char>|
            #![trigger self.shares.shares_of(p, t)]
            self.shares.has(p, t) && self.shares.shares_of(p, t) > self.pool_of(t).issued_shares
    }

    /// The transfer that pays participant `p` for its shares of token `t`.
    pub open spec fn payout(self, p: String, t: Seq<char>) -> TransferMsg {
        self.pool_of(t).transfer_to(
            self.pool_of(t).tokens_for(self.shares.shares_of(p@, t) as u128) as u128,
            p,
        )
    }

    /// Every entry of `sender` is paid by one of `msgs`.
    pub open spec fn pays_every_entry(self, sender: String, msgs: Seq<TransferMsg>) -> bool {
        forall|t: Seq<char>|
            self.shares.has(sender@, t) ==> exists|k: int| 0 <= k < msgs.len() && #[trigger] msgs[k].token() == t
    }

    /// Transfer `m` pays participant `sender` for its entry of the token it moves.
    pub open spec fn pays_for(self, sender: String, m: TransferMsg) -> bool {
        self.shares.has(sender@, m.token()) && m == self.payout(sender, m.token())
    }

    /// Redeems all shares of `sender`: fails with `NoTokensToWithdraw`,
    /// changing nothing, when it has no entry. Otherwise, for each of its
    /// entries in ascending order of token, the pool burns the shares and pays
    /// out `shares * withdrawable / issued` tokens, the entry is removed, and
    /// the transfers are returned.
    #[verifier::rlimit(50)]
    pub fn execute_withdraw_tokens(&mut self, sender: &String) -> (r: Result<Vec<TransferMsg>, ContractError>)
        requires
            old(self).wf(),
        ensures
            final(self).wf(),
            !old(self).shares.has_any(sender@) ==> r == Err::<Vec<TransferMsg>, ContractError>(
                ContractError::NoTokensToWithdraw {},
            ),
            r is Ok <==> old(self).shares.has_any(sender@),
            r is Err ==> *final(self) == *old(self),
            r is Ok ==> !final(self).shares.has_any(sender@),
            r is Ok ==> forall|p: Seq<char>, t: Seq<char>|
                p != sender@ ==> #[trigger] final(self).shares.shares_of(p, t) == old(
                    self,
                ).shares.shares_of(p, t) && final(self).shares.has(p, t) == old(self).shares.has(p, t),
            r is Ok ==> final(self).drip_pools@.len() == old(self).drip_pools@.len(),
            r is Ok ==> forall|j: int|
                0 <= j < old(self).drip_pools@.len() ==> #[trigger] final(self).drip_pools@[j] == if old(
                    self,
                ).shares.has(sender@, old(self).drip_pools@[j].token_id()) {
                    old(self).drip_pools@[j].settled(
                        old(self).shares.shares_of(sender@, old(self).drip_pools@[j].token_id()) as u128,
                    )
                } else {
                    old(self).drip_pools@[j]
                },
            r is Ok ==> forall|k: int|
                0 <= k < r->Ok_0@.len() ==> old(self).pays_for(*sender, #[trigger] r->Ok_0@[k]),
            r is Ok ==> old(self).pays_every_entry(*sender, r->Ok_0@),
            r is Ok ==> forall|k: int, l: int|
                0 <= k < l < r->Ok_0@.len() ==> crate::ledger::token_lt(
                    #[trigger] r->Ok_0@[k].token(),
                    #[trigger] r->Ok_0@[l].token(),
                ),
            r is Ok ==> final(self).config == old(self).config && final(self).participants == old(
                self,
            ).participants && final(self).drip_tokens == old(self).drip_tokens,
    {
        let list = self.shares.list_for_participant(sender);
        if list.len() == 0 {
            return Err(ContractError::NoTokensToWithdraw {});
        }
        proof {
            self.lemma_entries_within_issued(sender@);
        }
        let ghost before = *self;
        let msgs = self.settle_all(sender, &list);
        proof {
            self.lemma_withdraw_post(before, *sender, list@, msgs@);
        }
        Ok(msgs)
    }

    /// Settles each listed entry of `sender` against its pool, removes it,
    /// and returns the transfers in the order of the list.
    #[verifier::rlimit(40)]
    fn settle_all(&mut self, sender: &String, list: &Vec<(String, u128)>) -> (msgs: Vec<TransferMsg>)
        requires
            old(self).wf(),
            forall|k2: int| 0 <= k2 < list@.len() ==> old(self).shares.has(sender@, #[trigger] list@[k2].0@)
                && list@[k2].1 == old(self).shares.shares_of(sender@, list@[k2].0@),
            crate::ledger::sorted_by_token(list@),
            !old(self).withdrawal_underflows(sender@),
        ensures
            final(self).config == old(self).config,
            final(self).participants == old(self).participants,
            final(self).drip_tokens == old(self).drip_tokens,
            final(self).drip_pools@.len() == old(self).drip_pools@.len(),
            forall|j: int|
                0 <= j < old(self).drip_pools@.len() ==> #[trigger] final(self).drip_pools@[j] == if exists|k2: int|
                    0 <= k2 < list@.len() && #[trigger] list@[k2].0@ == old(self).drip_pools@[j].token_id() {
                    old(self).drip_pools@[j].settled(
                        old(self).shares.shares_of(sender@, old(self).drip_pools@[j].token_id()) as u128,
                    )
                } else {
                    old(self).drip_pools@[j]
                },
            forall|j: int| 0 <= j < final(self).drip_pools@.len() ==> (#[trigger] final(self).drip_pools@[j]).wf(),
            final(self).shares.wf(),
            forall|k2: int| 0 <= k2 < list@.len() ==> !final(self).shares.has(sender@, #[trigger] list@[k2].0@),
            forall|p: Seq<char>, t: Seq<char>|
                !(p == sender@ && exists|k2: int| 0 <= k2 < list@.len() && #[trigger] list@[k2].0@ == t) ==> #[trigger] final(self).shares.shares_of(p, t)
                    == old(self).shares.shares_of(p, t) && final(self).shares.has(p, t) == old(self).shares.has(p, t),
            forall|e: int|
                0 <= e < final(self).shares.entries@.len() ==> old(self).shares.entries@.contains(
                    #[trigger] final(self).shares.entries@[e],
                ),
            msgs@.len() == list@.len(),
            forall|k2: int| 0 <= k2 < list@.len() ==> #[trigger] msgs@[k2] == old(self).payout(*sender, list@[k2].0@),
            forall|t: Seq<char>|
                #[trigger] token_total(final(self).shares.entries@, t) == token_total(old(self).shares.entries@, t)
                    - if exists|k2: int| 0 <= k2 < list@.len() && #[trigger] list@[k2].0@ == t {
                    old(self).shares.shares_of(sender@, t) as int
                } else {
                    0
                },
    {
        let ghost before = *self;
        proof {
            assert forall|t: Seq<char>| #![trigger before.shares.shares_of(sender@, t)] before.shares.has(sender@, t) implies
                before.shares.shares_of(sender@, t) <= before.pool_of(t).issued_shares by {}
        }
        let mut msgs: Vec<TransferMsg> = Vec::new();
        let mut k: usize = 0;
        while k < list.len()
            invariant
                before.wf(),
                k <= list@.len(),
                forall|k2: int| 0 <= k2 < list@.len() ==> before.shares.has(sender@, #[trigger] list@[k2].0@)
                    && list@[k2].1 == before.shares.shares_of(sender@, list@[k2].0@),
                crate::ledger::sorted_by_token(list@),
                forall|t: Seq<char>| #![trigger before.shares.shares_of(sender@, t)] before.shares.has(sender@, t) ==>
                    before.shares.shares_of(sender@, t) <= before.pool_of(t).issued_shares,
                self.config == before.config,
                self.participants == before.participants,
                self.drip_tokens == before.drip_tokens,
                self.drip_pools@.len() == before.drip_pools@.len(),
                forall|j: int|
                    0 <= j < before.drip_pools@.len() ==> #[trigger] self.drip_pools@[j] == if exists|k2: int|
                        0 <= k2 < k && #[trigger] list@[k2].0@ == before.drip_pools@[j].token_id() {
                        before.drip_pools@[j].settled(
                            before.shares.shares_of(sender@, before.drip_pools@[j].token_id()) as u128,
                        )
                    } else {
                        before.drip_pools@[j]
                    },
                forall|j: int| 0 <= j < self.drip_pools@.len() ==> (#[trigger] self.drip_pools@[j]).wf(),
                self.shares.wf(),
                forall|k2: int| 0 <= k2 < k ==> !self.shares.has(sender@, #[trigger] list@[k2].0@),
                forall|p: Seq<char>, t: Seq<char>|
                    #![trigger self.shares.shares_of(p, t)]
                    #![trigger self.shares.has(p, t)]
                    !(p == sender@ && exists|k2: int| 0 <= k2 < k && #[trigger] list@[k2].0@ == t) ==> self.shares.shares_of(p, t)
                        == before.shares.shares_of(p, t) && self.shares.has(p, t) == before.shares.has(p, t),
                forall|e: int|
                    0 <= e < self.shares.entries@.len() ==> before.shares.entries@.contains(
                        #[trigger] self.shares.entries@[e],
                    ),
                msgs@.len() == k,
                forall|k2: int| 0 <= k2 < k ==> #[trigger] msgs@[k2] == before.payout(*sender, list@[k2].0@),
                forall|t: Seq<char>|
                    #[trigger] token_total(self.shares.entries@, t) == token_total(before.shares.entries@, t)
                        - if exists|k2: int| 0 <= k2 < k && #[trigger] list@[k2].0@ == t {
                        before.shares.shares_of(sender@, t) as int
                    } else {
                        0
                    },
            decreases list@.len() - k,
        {
            let ghost t = list@[k as int].0@;
            proof {
                before.lemma_ledger_token_has_pool(sender@, t);
                assert forall|k2: int| 0 <= k2 < k implies #[trigger] list@[k2].0@ != t by {
                    crate::ledger::lemma_token_irreflexive(t);
                }
            }
            let j = match self.find_pool(&list[k].0) {
                Some(j) => j,
                None => {
                    proof {
                        let j0 = before.pool_pos(t);
                        assert(self.drip_pools@[j0].token_id() == before.drip_pools@[j0].token_id());
                    }
                    0
                },
            };
            proof {
                assert(self.drip_pools@[j as int].token_id() == before.drip_pools@[j as int].token_id());
                before.lemma_pool_at(j as int);
                assert(self.drip_pools@[j as int] == before.drip_pools@[j as int]);
                let pl = before.drip_pools@[j as int];
                if pl.issued_shares > 0 {
                    crate::state::lemma_ratio_bounded(list@[k as int].1 as int, pl.withdrawable_tokens as int, pl.issued_shares as int);
                }
            }
            let shares = list[k].1;
            let mut pool = self.drip_pools[j].duplicate();
            let amount = pool.tokens_from_shares(shares);
            pool.remove_tokens_and_shares(shares);
            msgs.push(pool.send_tokens_message(amount, sender));
            self.drip_pools.set(j, pool);
            let ghost l0 = self.shares;
            self.shares.clear(sender, &list[k].0);
            proof {
                let k1: int = k + 1;
                assert forall|p: Seq<char>, t2: Seq<char>|
                    #![trigger self.shares.shares_of(p, t2)]
                    #![trigger self.shares.has(p, t2)]
                    !(p == sender@ && exists|k2: int| 0 <= k2 < k1 && #[trigger] list@[k2].0@ == t2) implies self.shares.shares_of(p, t2)
                        == before.shares.shares_of(p, t2) && self.shares.has(p, t2) == before.shares.has(p, t2) by {
                    if p == sender@ && t2 == t {
                        assert(list@[k as int].0@ == t2);
                    }
                    if p == sender@ && exists|k2: int| 0 <= k2 < k && #[trigger] list@[k2].0@ == t2 {
                        let k2 = choose|k2: int| 0 <= k2 < k && #[trigger] list@[k2].0@ == t2;
                        assert(list@[k2].0@ == t2);
                    }
                    assert(l0.shares_of(p, t2) == before.shares.shares_of(p, t2) && l0.has(p, t2) == before.shares.has(p, t2));
                }
                assert(l0.shares_of(sender@, t) == before.shares.shares_of(sender@, t));
                assert forall|t2: Seq<char>|
                    #[trigger] token_total(self.shares.entries@, t2) == token_total(before.shares.entries@, t2)
                        - if exists|k2: int| 0 <= k2 < k1 && #[trigger] list@[k2].0@ == t2 {
                        before.shares.shares_of(sender@, t2) as int
                    } else {
                        0
                    } by {
                    if t2 == t {
                        assert(list@[k as int].0@ == t2);
                    }
                    if exists|k2: int| 0 <= k2 < k && #[trigger] list@[k2].0@ == t2 {
                        let k2 = choose|k2: int| 0 <= k2 < k && #[trigger] list@[k2].0@ == t2;
                        assert(list@[k2].0@ == t2);
                    }
                    if exists|k2: int| 0 <= k2 < k1 && #[trigger] list@[k2].0@ == t2 {
                        let k2 = choose|k2: int| 0 <= k2 < k1 && #[trigger] list@[k2].0@ == t2;
                        if k2 < k {
                            assert(list@[k2].0@ == t2);
                        }
                    }
                }
                assert forall|j2: int| 0 <= j2 < before.drip_pools@.len() && j2 != j implies before.drip_pools@[j2].token_id() != t by {
                    assert(before.drip_pools@[j2].token_id() != before.drip_pools@[j as int].token_id());
                }
                assert forall|e: int|
                    0 <= e < self.shares.entries@.len() implies before.shares.entries@.contains(
                        #[trigger] self.shares.entries@[e],
                    ) by {
                    let e0 = choose|e0: int| 0 <= e0 < l0.entries@.len() && l0.entries@[e0] == self.shares.entries@[e];
                    assert(before.shares.entries@.contains(l0.entries@[e0]));
                }
            }
            k = k + 1;
        }
        msgs
    }

    /// What a withdrawal by `sender` that settled the entries `list` into the
    /// transfers `msgs` leaves: no entry of `sender`, the other entries and
    /// the settled pools as stated, and a consistent state.
    proof fn lemma_withdraw_post(
        self,
        before: DripState,
        sender: String,
        list: Seq<(String, u128)>,
        msgs: Seq<TransferMsg>,
    )
        requires
            before.wf(),
            forall|k2: int| 0 <= k2 < list.len() ==> before.shares.has(sender@, #[trigger] list[k2].0@)
                && list[k2].1 == before.shares.shares_of(sender@, list[k2].0@),
            forall|t: Seq<char>| before.shares.has(sender@, t) ==> exists|k2: int|
                0 <= k2 < list.len() && #[trigger] list[k2].0@ == t,
            crate::ledger::sorted_by_token(list),
            self.config == before.config,
            self.participants == before.participants,
            self.drip_tokens == before.drip_tokens,
            self.drip_pools@.len() == before.drip_pools@.len(),
            forall|j: int|
                0 <= j < before.drip_pools@.len() ==> #[trigger] self.drip_pools@[j] == if exists|k2: int|
                    0 <= k2 < list.len() && #[trigger] list[k2].0@ == before.drip_pools@[j].token_id() {
                    before.drip_pools@[j].settled(
                        before.shares.shares_of(sender@, before.drip_pools@[j].token_id()) as u128,
                    )
                } else {
                    before.drip_pools@[j]
                },
            forall|j: int| 0 <= j < self.drip_pools@.len() ==> (#[trigger] self.drip_pools@[j]).wf(),
            self.shares.wf(),
            forall|k2: int| 0 <= k2 < list.len() ==> !self.shares.has(sender@, #[trigger] list[k2].0@),
            forall|p: Seq<char>, t: Seq<char>|
                !(p == sender@ && exists|k2: int| 0 <= k2 < list.len() && #[trigger] list[k2].0@ == t) ==> #[trigger] self.shares.shares_of(p, t)
                    == before.shares.shares_of(p, t) && self.shares.has(p, t) == before.shares.has(p, t),
            forall|e: int|
                0 <= e < self.shares.entries@.len() ==> before.shares.entries@.contains(
                    #[trigger] self.shares.entries@[e],
                ),
            msgs.len() == list.len(),
            forall|k2: int| 0 <= k2 < list.len() ==> #[trigger] msgs[k2] == before.payout(sender, list[k2].0@),
            forall|t: Seq<char>|
                #[trigger] token_total(self.shares.entries@, t) == token_total(before.shares.entries@, t)
                    - if exists|k2: int| 0 <= k2 < list.len() && #[trigger] list[k2].0@ == t {
                    before.shares.shares_of(sender@, t) as int
                } else {
                    0
                },
        ensures
            self.wf(),
            !self.shares.has_any(sender@),
            forall|p: Seq<char>, t: Seq<char>|
                p != sender@ ==> #[trigger] self.shares.shares_of(p, t) == before.shares.shares_of(p, t)
                    && self.shares.has(p, t) == before.shares.has(p, t),
            forall|j: int|
                0 <= j < before.drip_pools@.len() ==> #[trigger] self.drip_pools@[j] == if before.shares.has(
                    sender@,
                    before.drip_pools@[j].token_id(),
                ) {
                    before.drip_pools@[j].settled(
                        before.shares.shares_of(sender@, before.drip_pools@[j].token_id()) as u128,
                    )
                } else {
                    before.drip_pools@[j]
                },
            forall|k: int| 0 <= k < msgs.len() ==> before.pays_for(sender, #[trigger] msgs[k]),
            before.pays_every_entry(sender, msgs),
            forall|k: int, l: int|
                0 <= k < l < msgs.len() ==> crate::ledger::token_lt(
                    #[trigger] msgs[k].token(),
                    #[trigger] msgs[l].token(),
                ),
    {
            assert forall|t: Seq<char>| before.shares.has(sender@, t) implies exists|k2: int|
                0 <= k2 < list.len() && #[trigger] list[k2].0@ == t by {}
            lemma_payouts(before, sender, list, msgs);
            assert forall|j: int|
                0 <= j < before.drip_pools@.len() implies #[trigger] self.drip_pools@[j] == if before.shares.has(
                    sender@,
                    before.drip_pools@[j].token_id(),
                ) {
                    before.drip_pools@[j].settled(
                        before.shares.shares_of(sender@, before.drip_pools@[j].token_id()) as u128,
                    )
                } else {
                    before.drip_pools@[j]
                } by {
                let id = before.drip_pools@[j].token_id();
                if before.shares.has(sender@, id) {
                    let k2 = choose|k2: int| 0 <= k2 < list.len() && #[trigger] list[k2].0@ == id;
                }
            }
            assert forall|p: Seq<char>, t: Seq<char>|
                p != sender@ implies #[trigger] self.shares.shares_of(p, t) == before.shares.shares_of(p, t)
                    && self.shares.has(p, t) == before.shares.has(p, t) by {}
            if self.shares.has_any(sender@) {
                let e = choose|e: int| 0 <= e < self.shares.entries@.len() && #[trigger] self.shares.entries@[e].participant@ == sender@;
                let t = self.shares.entries@[e].token@;
                self.shares.lemma_entry_at(e);
                assert(crate::ledger::keyed(self.shares.entries@[e], sender@, t));
                if before.shares.has(sender@, t) {
                    let k2 = choose|k2: int| 0 <= k2 < list.len() && #[trigger] list[k2].0@ == t;
                    assert(!self.shares.has(sender@, list[k2].0@));
                } else {
                    assert(self.shares.has(sender@, t) == before.shares.has(sender@, t));
                }
            }
            assert forall|j: int| 0 <= j < self.drip_pools@.len() implies (#[trigger] self.drip_pools@[j]).issued_shares
                == token_total(self.shares.entries@, self.drip_pools@[j].token_id()) by {
                let id = before.drip_pools@[j].token_id();
                assert(before.drip_pools@[j].issued_shares == token_total(before.shares.entries@, id));
                assert(token_total(self.shares.entries@, id) == token_total(before.shares.entries@, id)
                    - if exists|k2: int| 0 <= k2 < list.len() && #[trigger] list[k2].0@ == id {
                    before.shares.shares_of(sender@, id) as int
                } else {
                    0
                });
                if exists|k2: int| 0 <= k2 < list.len() && #[trigger] list[k2].0@ == id {
                    let k2 = choose|k2: int| 0 <= k2 < list.len() && #[trigger] list[k2].0@ == id;
                    assert(before.shares.has(sender@, list[k2].0@));
                    let i = choose|i: int|
                        0 <= i < before.shares.entries@.len() && #[trigger] crate::ledger::keyed(
                            before.shares.entries@[i],
                            sender@,
                            id,
                        );
                    before.shares.lemma_entry_at(i);
                    crate::ledger::lemma_token_total_ge(before.shares.entries@, i, id);
                }
            }
            self.lemma_withdraw_wf(before);
            }

    /// In a consistent state no entry holds more shares than its pool has
    /// issued, so a withdrawal never burns more shares than exist.
    pub proof fn lemma_entries_within_issued(self, p: Seq<char>)
        requires
            self.wf(),
        ensures
            !self.withdrawal_underflows(p),
    {
        assert forall|t: Seq<char>|
            #![trigger self.shares.shares_of(p, t)]
            self.shares.has(p, t) implies self.shares.shares_of(p, t) <= self.pool_of(t).issued_shares by {
            let i = choose|i: int|
                0 <= i < self.shares.entries@.len() && #[trigger] crate::ledger::keyed(self.shares.entries@[i], p, t);
            self.shares.lemma_entry_at(i);
            crate::ledger::lemma_token_total_ge(self.shares.entries@, i, t);
            assert(self.has_pool(self.shares.entries@[i].token@));
            let j = self.pool_pos(t);
            assert(self.drip_pools@[j].issued_shares == token_total(self.shares.entries@, self.drip_pools@[j].token_id()));
        }
    }

    /// A token that participant `p` has an entry for has a pool.
    proof fn lemma_ledger_token_has_pool(self, p: Seq<char>, t: Seq<char>)
        requires
            self.wf(),
            self.shares.has(p, t),
        ensures
            self.has_pool(t),
    {
        let i = choose|i: int| 0 <= i < self.shares.entries@.len() && #[trigger] crate::ledger::keyed(self.shares.entries@[i], p, t);
        assert(self.has_pool(self.shares.entries@[i].token@));
    }

    /// The state after a withdrawal is consistent.
    proof fn lemma_withdraw_wf(self, before: DripState)
        requires
            before.wf(),
            self.config == before.config,
            self.participants == before.participants,
            self.drip_tokens == before.drip_tokens,
            self.drip_pools@.len() == before.drip_pools@.len(),
            forall|j: int|
                0 <= j < before.drip_pools@.len() ==> #[trigger] self.drip_pools@[j].token_id()
                    == before.drip_pools@[j].token_id() && self.drip_pools@[j].epoch == before.drip_pools@[j].epoch
                    && self.drip_pools@[j].epochs_number == before.drip_pools@[j].epochs_number,
            forall|j: int| 0 <= j < self.drip_pools@.len() ==> (#[trigger] self.drip_pools@[j]).wf(),
            self.shares.wf(),
            forall|e: int|
                0 <= e < self.shares.entries@.len() ==> before.shares.entries@.contains(
                    #[trigger] self.shares.entries@[e],
                ),
            forall|j: int|
                0 <= j < self.drip_pools@.len() ==> (#[trigger] self.drip_pools@[j]).issued_shares == token_total(
                    self.shares.entries@,
                    self.drip_pools@[j].token_id(),
                ),
        ensures
            self.wf(),
    {
        let n = before.drip_pools@.len();
        assert(self.pools_unique()) by {
            assert forall|a: int, b: int|
                #![trigger self.drip_pools@[a], self.drip_pools@[b]]
                0 <= a < n && 0 <= b < n && a != b implies self.drip_pools@[a].token_id()
                != self.drip_pools@[b].token_id() by {
                assert(self.drip_pools@[a].token_id() == before.drip_pools@[a].token_id());
                assert(self.drip_pools@[b].token_id() == before.drip_pools@[b].token_id());
                assert(before.drip_pools@[a].token_id() != before.drip_pools@[b].token_id());
            }
        }
        assert forall|t: Seq<char>| before.has_pool(t) implies self.has_pool(t) && self.pool_pos(t)
            == before.pool_pos(t) by {
            let j = before.pool_pos(t);
            assert(self.drip_pools@[j].token_id() == before.drip_pools@[j].token_id());
            self.lemma_pool_at(j);
        }
        assert forall|k: int| 0 <= k < self.drip_tokens@.len() implies self.has_pool(
            #[trigger] self.drip_tokens@[k]@,
        ) && self.pool_of(self.drip_tokens@[k]@).is_active() by {
            assert(before.has_pool(before.drip_tokens@[k]@));
            let j = before.pool_pos(self.drip_tokens@[k]@);
            assert(self.drip_pools@[j].epoch == before.drip_pools@[j].epoch);
        }
        assert forall|j: int|
            0 <= j < n && (#[trigger] self.drip_pools@[j]).is_active() implies self.is_active_token(
                self.drip_pools@[j].token_id(),
            ) by {
            assert(self.drip_pools@[j].token_id() == before.drip_pools@[j].token_id());
            assert(before.drip_pools@[j].is_active());
        }
        assert forall|i: int| 0 <= i < self.shares.entries@.len() implies self.has_pool(
            (#[trigger] self.shares.entries@[i]).token@,
        ) by {
            let e0 = choose|e0: int| 0 <= e0 < before.shares.entries@.len() && before.shares.entries@[e0] == self.shares.entries@[i];
            assert(before.has_pool(before.shares.entries@[e0].token@));
        }
    }
}

} // verus!

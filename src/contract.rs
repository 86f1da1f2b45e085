use vstd::prelude::*;

use crate::error::ContractError;
use crate::ledger::{token_total, ShareLedger};
use crate::msg::{
    ConfigResponse, DripPoolResponse, DripPoolsResponse, DripTokensResponse, InstantiateMsg,
    ParticipantSharesResponse, ParticipantsResponse, UncheckedDripToken,
};
use crate::state::{Config, DripPool};

verus! {

/// The views of a sequence of strings.
pub open spec fn names(v: Seq<String>) -> Seq<Seq<char>> {
    v.map_values(|s: String| s@)
}

/// `s` with every occurrence of `x` taken out, the rest in order.
pub open spec fn without(s: Seq<Seq<char>>, x: Seq<char>) -> Seq<Seq<char>>
    decreases s.len(),
{
    if s.len() == 0 {
        s
    } else if s.last() == x {
        without(s.drop_last(), x)
    } else {
        without(s.drop_last(), x).push(s.last())
    }
}

/// No two strings of `v` have the same view.
pub proof fn lemma_names_unique(v: Seq<String>)
    requires
        names(v).no_duplicates(),
    ensures
        forall|a: int, b: int|
            #![trigger v[a], v[b]]
            0 <= a < v.len() && 0 <= b < v.len() && a != b ==> v[a]@ != v[b]@,
        forall|x: Seq<char>| #[trigger]
            names(v).contains(x) <==> exists|k: int| 0 <= k < v.len() && #[trigger] v[k]@ == x,
{
    assert forall|a: int, b: int|
        #![trigger v[a], v[b]]
        0 <= a < v.len() && 0 <= b < v.len() && a != b implies v[a]@ != v[b]@ by {
        assert(names(v)[a] == v[a]@ && names(v)[b] == v[b]@);
    }
    assert forall|x: Seq<char>| #[trigger]
        names(v).contains(x) <==> exists|k: int| 0 <= k < v.len() && #[trigger] v[k]@ == x by {
        if names(v).contains(x) {
            let k = choose|k: int| 0 <= k < names(v).len() && names(v)[k] == x;
            assert(v[k]@ == x);
        }
        if exists|k: int| 0 <= k < v.len() && #[trigger] v[k]@ == x {
            let k = choose|k: int| 0 <= k < v.len() && #[trigger] v[k]@ == x;
            assert(names(v)[k] == x);
        }
    }
}


/// The whole state of the engine.
#[derive(Debug, Clone, PartialEq, Eq)]
pub struct DripState {
    pub config: Config,
    /// Opted-in addresses, in order of arrival.
    pub participants: Vec<String>,
    /// Token identifiers of the pools still distributing, in order of creation.
    pub drip_tokens: Vec<String>,
    /// Every pool ever created, exhausted ones included.
    pub drip_pools: Vec<DripPool>,
    /// Accrued shares per participant and token.
    pub shares: ShareLedger,
}

impl DripState {
    /// There is a pool for token `t`.
    pub open spec fn has_pool(self, t: Seq<char>) -> bool {
        exists|j: int| 0 <= j < self.drip_pools@.len() && #[trigger] self.drip_pools@[j].token_id() == t
    }

    /// Position of the pool of token `t`.
    pub open spec fn pool_pos(self, t: Seq<char>) -> int {
        choose|j: int| 0 <= j < self.drip_pools@.len() && #[trigger] self.drip_pools@[j].token_id() == t
    }

    /// The pool of token `t`.
    pub open spec fn pool_of(self, t: Seq<char>) -> DripPool {
        self.drip_pools@[self.pool_pos(t)]
    }

    /// Token `t` is in the active index.
    pub open spec fn is_active_token(self, t: Seq<char>) -> bool {
        names(self.drip_tokens@).contains(t)
    }

    /// No two pools are for the same token.
    pub open spec fn pools_unique(self) -> bool {
        forall|i: int, j: int|
            #![trigger self.drip_pools@[i], self.drip_pools@[j]]
            0 <= i < self.drip_pools@.len() && 0 <= j < self.drip_pools@.len() && i != j
                ==> self.drip_pools@[i].token_id() != self.drip_pools@[j].token_id()
    }

    /// The state is consistent: no duplicate participant, active token or
    /// pool; every active token has a pool that still has epochs to release,
    /// and every such pool is in the active index;
    /// every pool's accounting is consistent; the ledger has one entry per key
    /// and only for tokens that have a pool; and every pool has issued exactly
    /// the shares that the ledger holds for its token.
    pub open spec fn wf(self) -> bool {
        &&& names(self.participants@).no_duplicates()
        &&& names(self.drip_tokens@).no_duplicates()
        &&& self.pools_unique()
        &&& forall|k: int|
            0 <= k < self.drip_tokens@.len() ==> self.has_pool(#[trigger] self.drip_tokens@[k]@)
                && self.pool_of(self.drip_tokens@[k]@).is_active()
        &&& forall|j: int|
            0 <= j < self.drip_pools@.len() && (#[trigger] self.drip_pools@[j]).is_active()
                ==> self.is_active_token(self.drip_pools@[j].token_id())
        &&& forall|j: int| 0 <= j < self.drip_pools@.len() ==> (#[trigger] self.drip_pools@[j]).wf()
        &&& self.shares.wf()
        &&& forall|i: int|
            0 <= i < self.shares.entries@.len() ==> self.has_pool(
                (#[trigger] self.shares.entries@[i]).token@,
            )
        &&& forall|j: int|
            0 <= j < self.drip_pools@.len() ==> (#[trigger] self.drip_pools@[j]).issued_shares == token_total(
                self.shares.entries@,
                self.drip_pools@[j].token_id(),
            )
    }

    /// The pool at `j` is the one that `pool_of` finds for its token.
    pub proof fn lemma_pool_at(self, j: int)
        requires
            self.pools_unique(),
            0 <= j < self.drip_pools@.len(),
        ensures
            self.has_pool(self.drip_pools@[j].token_id()),
            self.pool_pos(self.drip_pools@[j].token_id()) == j,
    {
        let t = self.drip_pools@[j].token_id();
        assert(self.drip_pools@[j].token_id() == t);
        let i = self.pool_pos(t);
        if i != j {
            assert(self.drip_pools@[i].token_id() != self.drip_pools@[j].token_id());
        }
    }

    /// Starts the engine: `sender` becomes the owner, and the first
    /// distribution is due one epoch after `now`. Fails with `Overflow` when
    /// that time does not fit in `u64`.
    pub fn instantiate(sender: String, now: u64, msg: InstantiateMsg) -> (r: Result<DripState, ContractError>)
        ensures
            r is Ok <==> now + msg.epoch_duration <= u64::MAX,
            r is Err ==> r == Err::<DripState, ContractError>(ContractError::Overflow {}),
            r is Ok ==> r->Ok_0.wf(),
            r is Ok ==> r->Ok_0.config == (Config {
                owner: sender,
                min_staking_amount: msg.min_staking_amount,
                epoch_duration: msg.epoch_duration,
                next_distribution_time: (now + msg.epoch_duration) as u64,
            }),
            r is Ok ==> r->Ok_0.participants@.len() == 0 && r->Ok_0.drip_tokens@.len() == 0
                && r->Ok_0.drip_pools@.len() == 0 && r->Ok_0.shares.entries@.len() == 0,
    {
        let next_distribution_time = match now.checked_add(msg.epoch_duration) {
            Some(t) => t,
            None => return Err(ContractError::Overflow {}),
        };
        let config = Config {
            owner: sender,
            min_staking_amount: msg.min_staking_amount,
            epoch_duration: msg.epoch_duration,
            next_distribution_time,
        };
        let state = DripState {
            config,
            participants: Vec::new(),
            drip_tokens: Vec::new(),
            drip_pools: Vec::new(),
            shares: ShareLedger::new(),
        };
        proof {
            assert(names(state.participants@) =~= Seq::<Seq<char>>::empty());
            assert(names(state.drip_tokens@) =~= Seq::<Seq<char>>::empty());
        }
        Ok(state)
    }

    /// Whether `address` is a participant.
    pub fn is_participant(&self, address: &String) -> (r: bool)
        ensures
            r == names(self.participants@).contains(address@),
    {
        let mut i: usize = 0;
        while i < self.participants.len()
            invariant
                i <= self.participants@.len(),
                forall|k: int| 0 <= k < i ==> (#[trigger] self.participants@[k])@ != address@,
            decreases self.participants@.len() - i,
        {
            if self.participants[i] == *address {
                proof {
                    assert(names(self.participants@)[i as int] == address@);
                }
                return true;
            }
            i = i + 1;
        }
        proof {
            if names(self.participants@).contains(address@) {
                let k = choose|k: int|
                    0 <= k < names(self.participants@).len() && names(self.participants@)[k]
                        == address@;
                assert(self.participants@[k]@ == address@);
            }
        }
        false
    }

    /// Opts `sender` in: fails with `AlreadyParticipant` if it already is one,
    /// else appends it to the participants.
    pub fn execute_add_participant(&mut self, sender: String) -> (r: Result<(), ContractError>)
        requires
            old(self).wf(),
        ensures
            final(self).wf(),
            r is Err <==> names(old(self).participants@).contains(sender@),
            r is Err ==> r == Err::<(), ContractError>(ContractError::AlreadyParticipant {}),
            r is Err ==> *final(self) == *old(self),
            r is Ok ==> names(final(self).participants@) == names(old(self).participants@).push(
                sender@,
            ),
            r is Ok ==> final(self).participants@ == old(self).participants@.push(sender),
            final(self).config == old(self).config,
            final(self).drip_tokens == old(self).drip_tokens,
            final(self).drip_pools == old(self).drip_pools,
            final(self).shares == old(self).shares,
    {
        if self.is_participant(&sender) {
            return Err(ContractError::AlreadyParticipant {});
        }
        let ghost before = names(self.participants@);
        self.participants.push(sender);
        proof {
            assert(names(self.participants@) =~= before.push(sender@));
            assert forall|a: int, b: int|
                0 <= a < b < names(self.participants@).len() implies names(self.participants@)[a]
                != names(self.participants@)[b] by {
                if b < before.len() {
                    assert(before[a] != before[b]);
                }
            }
        }
        Ok(())
    }

    /// Opts `sender` out, keeping the order of the others; removing an
    /// address that is not a participant changes nothing.
    pub fn execute_remove_participant(&mut self, sender: &String)
        requires
            old(self).wf(),
        ensures
            final(self).wf(),
            names(final(self).participants@) == without(names(old(self).participants@), sender@),
            final(self).config == old(self).config,
            final(self).drip_tokens == old(self).drip_tokens,
            final(self).drip_pools == old(self).drip_pools,
            final(self).shares == old(self).shares,
    {
        let ghost all = names(self.participants@);
        let mut kept: Vec<String> = Vec::new();
        let mut i: usize = 0;
        while i < self.participants.len()
            invariant
                i <= self.participants@.len(),
                all == names(self.participants@),
                names(kept@) == without(all.take(i as int), sender@),
            decreases self.participants@.len() - i,
        {
            proof {
                assert(all.take(i + 1).drop_last() =~= all.take(i as int));
            }
            if self.participants[i] != *sender {
                let ghost prev = names(kept@);
                kept.push(self.participants[i].clone());
                proof {
                    assert(names(kept@) =~= prev.push(all[i as int]));
                }
            }
            i = i + 1;
        }
        proof {
            assert(all.take(all.len() as int) =~= all);
            lemma_without_unique(all, sender@);
        }
        self.participants = kept;
    }

    /// Position of the pool of token `t`, if there is one.
    pub fn find_pool(&self, t: &String) -> (r: Option<usize>)
        ensures
            r is Some ==> r->Some_0 < self.drip_pools@.len() && self.drip_pools@[r->Some_0 as int].token_id() == t@,
            r is None ==> !self.has_pool(t@),
    {
        let mut i: usize = 0;
        while i < self.drip_pools.len()
            invariant
                i <= self.drip_pools@.len(),
                forall|j: int| 0 <= j < i ==> (#[trigger] self.drip_pools@[j]).token_id() != t@,
            decreases self.drip_pools@.len() - i,
        {
            if self.drip_pools[i].drip_token.is_token(t) {
                return Some(i);
            }
            i = i + 1;
        }
        None
    }

    /// Why a pool cannot be created, checked in this order: the sender is not
    /// the owner; fewer than one epoch; a zero or unfunded initial amount; an
    /// epoch total out of range or different from the initial amount; a pool
    /// for the token already exists.
    pub open spec fn create_error(
        self,
        sender: Seq<char>,
        token_info: UncheckedDripToken,
        tokens_per_epoch: u128,
        epochs_number: u64,
        held_balance: u128,
    ) -> Option<ContractError> {
        let total = tokens_per_epoch * epochs_number;
        if sender != self.config.owner@ {
            Some(ContractError::Unauthorized {})
        } else if epochs_number < 1 {
            Some(ContractError::LessThanOneEpoch {})
        } else if token_info.initial() == 0 {
            Some(ContractError::ZeroTokenPool {})
        } else if held_balance < token_info.initial() {
            Some(ContractError::NoFundedContract { token: token_info.name(), amount: token_info.initial() })
        } else if total > u128::MAX {
            Some(ContractError::Overflow {})
        } else if token_info.initial() != total {
            Some(
                ContractError::WrongTokensAmount {
                    tokens_amount: token_info.initial(),
                    total_tokens: total as u128,
                },
            )
        } else if self.has_pool(token_info.name()@) {
            Some(ContractError::DripPoolAlreadyExists {})
        } else {
            None
        }
    }

    /// Creates a pool of `epochs_number` epochs releasing `tokens_per_epoch`
    /// each, for the token of `token_info`, of which the engine holds
    /// `held_balance`. On success the pool starts at epoch zero and its token
    /// joins the active index; on failure nothing changes.
    pub fn execute_create_drip_pool(
        &mut self,
        sender: &String,
        token_info: UncheckedDripToken,
        tokens_per_epoch: u128,
        epochs_number: u64,
        held_balance: u128,
    ) -> (r: Result<(), ContractError>)
        requires
            old(self).wf(),
        ensures
            final(self).wf(),
            r == (match old(self).create_error(
                sender@,
                token_info,
                tokens_per_epoch,
                epochs_number,
                held_balance,
            ) {
                Some(e) => Err(e),
                None => Ok(()),
            }),
            r is Err ==> *final(self) == *old(self),
            r is Ok ==> final(self).drip_pools@ == old(self).drip_pools@.push(
                DripPool::fresh(token_info.checked(), tokens_per_epoch, epochs_number),
            ),
            r is Ok ==> names(final(self).drip_tokens@) == names(old(self).drip_tokens@).push(
                token_info.name()@,
            ),
            r is Ok ==> final(self).config == old(self).config && final(self).participants
                == old(self).participants && final(self).shares == old(self).shares,
    {
        if *sender != self.config.owner {
            return Err(ContractError::Unauthorized {});
        }
        if epochs_number < 1 {
            return Err(ContractError::LessThanOneEpoch {});
        }
        let drip_token = match token_info.validate(held_balance) {
            Ok(t) => t,
            Err(e) => return Err(e),
        };
        let total_drip_amount = match tokens_per_epoch.checked_mul(epochs_number as u128) {
            Some(v) => v,
            None => return Err(ContractError::Overflow {}),
        };
        let available_amount = drip_token.get_available_amount();
        if available_amount != total_drip_amount {
            return Err(
                ContractError::WrongTokensAmount {
                    tokens_amount: available_amount,
                    total_tokens: total_drip_amount,
                },
            );
        }
        let token = drip_token.get_token();
        if self.find_pool(&token).is_some() {
            return Err(ContractError::DripPoolAlreadyExists {});
        }
        let ghost before = *self;
        let pool = DripPool::new(drip_token, tokens_per_epoch, epochs_number);
        self.drip_pools.push(pool);
        self.drip_tokens.push(token);
        proof {
            let n = before.drip_pools@.len() as int;
            assert forall|j: int| 0 <= j < n implies #[trigger] self.drip_pools@[j] == before.drip_pools@[j] by {}
            assert(self.pools_unique()) by {
                assert forall|a: int, b: int|
                    #![trigger self.drip_pools@[a], self.drip_pools@[b]]
                    0 <= a < self.drip_pools@.len() && 0 <= b < self.drip_pools@.len() && a != b
                    implies self.drip_pools@[a].token_id() != self.drip_pools@[b].token_id() by {
                    if a == n {
                        assert(before.drip_pools@[b].token_id() == before.drip_pools@[b].token_id());
                    } else if b == n {
                        assert(before.drip_pools@[a].token_id() == before.drip_pools@[a].token_id());
                    } else {
                        assert(before.drip_pools@[a].token_id() != before.drip_pools@[b].token_id());
                    }
                }
            }
            assert forall|t: Seq<char>| before.has_pool(t) implies #[trigger] self.has_pool(t)
                && self.pool_of(t) == before.pool_of(t) by {
                let j = before.pool_pos(t);
                assert(self.drip_pools@[j].token_id() == t);
                self.lemma_pool_at(j);
            }
            self.lemma_pool_at(n);
            assert(names(self.drip_tokens@) =~= names(before.drip_tokens@).push(token@));
            assert(names(self.drip_tokens@).no_duplicates()) by {
                let s = names(self.drip_tokens@);
                assert forall|a: int, b: int| 0 <= a < b < s.len() implies s[a] != s[b] by {
                    if b == s.len() - 1 {
                        assert(before.has_pool(before.drip_tokens@[a]@));
                    } else {
                        assert(names(before.drip_tokens@)[a] != names(before.drip_tokens@)[b]);
                    }
                }
            }
            assert forall|k: int| 0 <= k < self.drip_tokens@.len() implies self.has_pool(
                #[trigger] self.drip_tokens@[k]@,
            ) && self.pool_of(self.drip_tokens@[k]@).is_active() by {
                if k < before.drip_tokens@.len() {
                    let t = before.drip_tokens@[k]@;
                    assert(self.drip_tokens@[k] == before.drip_tokens@[k]);
                    assert(before.has_pool(t));
                    let j = before.pool_pos(t);
                    assert(self.drip_pools@[j] == before.drip_pools@[j]);
                    self.lemma_pool_at(j);
                    assert(before.pool_of(t).is_active());
                } else {
                    assert(self.drip_tokens@[k] == token);
                    assert(self.drip_pools@[n].token_id() == token@);
                }
            }
            assert forall|j: int|
                0 <= j < self.drip_pools@.len() && (#[trigger] self.drip_pools@[j]).is_active() implies self.is_active_token(
                    self.drip_pools@[j].token_id(),
                ) by {
                if j < n {
                    let id = before.drip_pools@[j].token_id();
                    assert(before.is_active_token(id));
                    let k = choose|k: int| 0 <= k < names(before.drip_tokens@).len() && names(before.drip_tokens@)[k] == id;
                    assert(names(self.drip_tokens@)[k] == id);
                } else {
                    assert(names(self.drip_tokens@)[names(self.drip_tokens@).len() - 1] == token@);
                }
            }
            assert forall|j: int| 0 <= j < self.drip_pools@.len() implies (#[trigger] self.drip_pools@[j]).wf() by {
                if j < n {
                    assert(before.drip_pools@[j].wf());
                }
            }
            assert forall|i: int| 0 <= i < self.shares.entries@.len() implies self.has_pool(
                (#[trigger] self.shares.entries@[i]).token@,
            ) by {
                assert(before.has_pool(before.shares.entries@[i].token@));
            }
            assert forall|i: int| 0 <= i < self.shares.entries@.len() implies (#[trigger] self.shares.entries@[i]).token@ != token@ by {
                assert(before.has_pool(before.shares.entries@[i].token@));
            }
            crate::ledger::lemma_token_total_none(self.shares.entries@, token@);
            assert forall|j: int| 0 <= j < self.drip_pools@.len() implies (#[trigger] self.drip_pools@[j]).issued_shares == token_total(
                self.shares.entries@,
                self.drip_pools@[j].token_id(),
            ) by {
                if j < n {
                    assert(before.drip_pools@[j].issued_shares == token_total(before.shares.entries@, before.drip_pools@[j].token_id()));
                }
            }
        }
        Ok(())
    }


    /// The configuration.
    pub fn query_config(&self) -> (r: ConfigResponse)
        ensures
            r.config == self.config,
    {
        ConfigResponse {
            config: Config {
                owner: self.config.owner.clone(),
                min_staking_amount: self.config.min_staking_amount,
                epoch_duration: self.config.epoch_duration,
                next_distribution_time: self.config.next_distribution_time,
            },
        }
    }

    /// The participants, in order of arrival.
    pub fn query_participants(&self) -> (r: ParticipantsResponse)
        ensures
            r.participants@ == self.participants@,
    {
        ParticipantsResponse { participants: copy_strings(&self.participants) }
    }

    /// The token identifiers of the active pools.
    pub fn query_drip_tokens(&self) -> (r: DripTokensResponse)
        ensures
            r.drip_tokens@ == self.drip_tokens@,
    {
        DripTokensResponse { drip_tokens: copy_strings(&self.drip_tokens) }
    }

    /// The pool of `token`, if there is one, exhausted or not.
    pub fn query_drip_pool(&self, token: &String) -> (r: DripPoolResponse)
        requires
            self.wf(),
        ensures
            r.drip_pool is Some <==> self.has_pool(token@),
            r.drip_pool is Some ==> r.drip_pool->Some_0 == self.pool_of(token@),
    {
        match self.find_pool(token) {
            Some(j) => {
                proof {
                    self.lemma_pool_at(j as int);
                }
                DripPoolResponse { drip_pool: Some(self.drip_pools[j].duplicate()) }
            },
            None => DripPoolResponse { drip_pool: None },
        }
    }

    /// The pools of the active tokens, in the order of the active index.
    pub fn query_drip_pools(&self) -> (r: DripPoolsResponse)
        requires
            self.wf(),
        ensures
            r.drip_pools@.len() == self.drip_tokens@.len(),
            forall|k: int|
                0 <= k < r.drip_pools@.len() ==> #[trigger] r.drip_pools@[k] == self.pool_of(
                    self.drip_tokens@[k]@,
                ),
    {
        let mut pools: Vec<DripPool> = Vec::new();
        let mut k: usize = 0;
        while k < self.drip_tokens.len()
            invariant
                self.wf(),
                k <= self.drip_tokens@.len(),
                pools@.len() == k,
                forall|k2: int| 0 <= k2 < k ==> #[trigger] pools@[k2] == self.pool_of(self.drip_tokens@[k2]@),
            decreases self.drip_tokens@.len() - k,
        {
            proof {
                assert(self.has_pool(self.drip_tokens@[k as int]@));
            }
            if let Some(j) = self.find_pool(&self.drip_tokens[k]) {
                proof {
                    self.lemma_pool_at(j as int);
                }
                pools.push(self.drip_pools[j].duplicate());
            }
            k = k + 1;
        }
        DripPoolsResponse { drip_pools: pools }
    }

    /// The (token, shares) entries of `address`, in ascending order of token.
    pub fn query_participant_shares(&self, address: &String) -> (r: ParticipantSharesResponse)
        requires
            self.wf(),
        ensures
            forall|k: int|
                0 <= k < r.shares@.len() ==> self.shares.has(address@, #[trigger] r.shares@[k].0@)
                    && r.shares@[k].1 == self.shares.shares_of(address@, r.shares@[k].0@),
            self.shares.lists_every_entry(address@, r.shares@),
            crate::ledger::sorted_by_token(r.shares@),
    {
        ParticipantSharesResponse { shares: self.shares.list_for_participant(address) }
    }

}


/// A copy of a vector of strings.
fn copy_strings(v: &Vec<String>) -> (r: Vec<String>)
    ensures
        r@ == v@,
{
    let mut out: Vec<String> = Vec::new();
    let mut i: usize = 0;
    while i < v.len()
        invariant
            i <= v@.len(),
            out@ == v@.take(i as int),
        decreases v@.len() - i,
    {
        out.push(v[i].clone());
        proof {
            assert(out@ =~= v@.take(i + 1));
        }
        i = i + 1;
    }
    proof {
        assert(v@.take(v@.len() as int) =~= v@);
    }
    out
}

/// Taking an element out keeps a sequence free of duplicates, and every other
/// element stays.
pub proof fn lemma_without_unique(s: Seq<Seq<char>>, x: Seq<char>)
    requires
        s.no_duplicates(),
    ensures
        without(s, x).no_duplicates(),
        forall|y: Seq<char>| #[trigger] without(s, x).contains(y) <==> (s.contains(y) && y != x),
    decreases s.len(),
{
    if s.len() > 0 {
        let p = s.drop_last();
        assert(p.no_duplicates()) by {
            assert forall|a: int, b: int| 0 <= a < b < p.len() implies p[a] != p[b] by {
                assert(s[a] != s[b]);
            }
        }
        lemma_without_unique(p, x);
        assert forall|y: Seq<char>| #[trigger] s.contains(y) <==> (p.contains(y) || y == s.last()) by {
            if s.contains(y) {
                let k = choose|k: int| 0 <= k < s.len() && s[k] == y;
                if k < p.len() {
                    assert(p[k] == y);
                }
            }
            if p.contains(y) {
                let k = choose|k: int| 0 <= k < p.len() && p[k] == y;
                assert(s[k] == y);
            }
        }
        if s.last() != x {
            let w = without(p, x);
            assert(!p.contains(s.last())) by {
                if p.contains(s.last()) {
                    let k = choose|k: int| 0 <= k < p.len() && p[k] == s.last();
                    assert(s[k] != s[s.len() - 1]);
                }
            }
            assert forall|a: int, b: int| 0 <= a < b < w.push(s.last()).len() implies w.push(
                s.last(),
            )[a] != w.push(s.last())[b] by {
                if b == w.len() {
                    assert(w.contains(w[a]));
                }
            }
            assert forall|y: Seq<char>| #[trigger] w.push(s.last()).contains(y) <==> (w.contains(y)
                || y == s.last()) by {
                if w.push(s.last()).contains(y) {
                    let k = choose|k: int| 0 <= k < w.push(s.last()).len() && w.push(s.last())[k] == y;
                    if k < w.len() {
                        assert(w[k] == y);
                    }
                }
                if w.contains(y) {
                    let k = choose|k: int| 0 <= k < w.len() && w[k] == y;
                    assert(w.push(s.last())[k] == y);
                }
                if y == s.last() {
                    assert(w.push(s.last())[w.len() as int] == y);
                }
            }
        }
    }
}

} // verus!

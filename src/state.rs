use vstd::prelude::*;

use crate::error::ContractError;

verus! {

/// Engine configuration, created at instantiation.
#[derive(Debug, Clone, PartialEq, Eq)]
pub struct Config {
    /// The only address allowed to create drip pools.
    pub owner: String,
    /// Minimum eligibility weight to accrue shares in a cycle.
    pub min_staking_amount: u128,
    /// Length of one epoch, in seconds.
    pub epoch_duration: u64,
    /// Earliest time of the next distribution cycle.
    pub next_distribution_time: u64,
}

/// A token distributed by a pool, with the amount still to be released.
#[derive(Debug, Clone, PartialEq, Eq)]
pub enum DripToken {
    Native { denom: String, amount: u128 },
    CW20 { address: String, amount: u128 },
}

/// A transfer that the host is asked to perform on behalf of the engine.
#[derive(Debug, Clone, PartialEq, Eq)]
pub enum TransferMsg {
    /// Send native coins of `denom` to `to_address`.
    BankSend { to_address: String, denom: String, amount: u128 },
    /// Call `transfer` on the fungible-token contract `contract_addr`.
    Cw20Transfer { contract_addr: String, recipient: String, amount: u128 },
}

/// One drip campaign for a single token.
#[derive(Debug, Clone, PartialEq, Eq)]
pub struct DripPool {
    /// Token to be distributed, with its undistributed amount.
    pub drip_token: DripToken,
    /// Amount funded at creation.
    pub initial_amount: u128,
    /// Released tokens not yet withdrawn.
    pub withdrawable_tokens: u128,
    /// Tokens released at every epoch.
    pub tokens_per_epoch: u128,
    /// Shares issued to participants and not yet burned by a withdrawal.
    pub issued_shares: u128,
    /// Total number of epochs.
    pub epochs_number: u64,
    /// Epochs released so far.
    pub epoch: u64,
}

impl TransferMsg {
    /// The identifier of the token moved: the denom or the token contract.
    pub open spec fn token(self) -> Seq<char> {
        match self {
            TransferMsg::BankSend { denom, .. } => denom@,
            TransferMsg::Cw20Transfer { contract_addr, .. } => contract_addr@,
        }
    }
}

impl DripToken {
    /// Amount of the token not yet released.
    pub open spec fn available(self) -> u128 {
        match self {
            DripToken::Native { amount, .. } => amount,
            DripToken::CW20 { amount, .. } => amount,
        }
    }

    /// The identifier that keys the token: its denom or its contract address.
    pub open spec fn id(self) -> Seq<char> {
        match self {
            DripToken::Native { denom, .. } => denom@,
            DripToken::CW20 { address, .. } => address@,
        }
    }

    /// The same token with another available amount.
    pub open spec fn with_amount(self, a: u128) -> DripToken {
        match self {
            DripToken::Native { denom, .. } => DripToken::Native { denom, amount: a },
            DripToken::CW20 { address, .. } => DripToken::CW20 { address, amount: a },
        }
    }

    /// Getter for the amount of the drip token that is still available.
    pub fn get_available_amount(&self) -> (r: u128)
        ensures
            r == self.available(),
    {
        match self {
            DripToken::Native { amount, .. } => *amount,
            DripToken::CW20 { amount, .. } => *amount,
        }
    }

    /// Whether the token is identified by `t`.
    pub fn is_token(&self, t: &String) -> (r: bool)
        ensures
            r == (self.id() == t@),
    {
        match self {
            DripToken::Native { denom, .. } => *denom == *t,
            DripToken::CW20 { address, .. } => *address == *t,
        }
    }

    /// Getter for the drip token unique identifier.
    pub fn get_token(&self) -> (r: String)
        ensures
            r@ == self.id(),
    {
        match self {
            DripToken::Native { denom, .. } => denom.clone(),
            DripToken::CW20 { address, .. } => address.clone(),
        }
    }
}

/// Floor of `a * n / d`, as an integer.
#[verifier::opaque]
pub open spec fn ratio(a: int, n: int, d: int) -> int {
    (a * n) / d
}

/// Relies on cosmwasm_std's `Uint128::multiply_ratio`: `a * n / d` computed
/// with a 256-bit intermediate and floored; it panics when `d` is zero or the
/// quotient does not fit in 128 bits.
#[verifier::external_body]
fn multiply_ratio(a: u128, n: u128, d: u128) -> (r: u128)
    requires
        d != 0,
        ratio(a as int, n as int, d as int) <= u128::MAX,
    ensures
        r == ratio(a as int, n as int, d as int),
{
    cosmwasm_std::Uint128::new(a).multiply_ratio(n, d).u128()
}

pub proof fn lemma_ratio_bounded(a: int, n: int, d: int)
    requires
        0 <= a <= d,
        0 <= n,
        0 < d,
    ensures
        0 <= ratio(a, n, d) <= n,
{
    reveal(ratio);
    assert(a * n <= d * n) by (nonlinear_arith)
        requires
            0 <= a <= d,
            0 <= n,
    ;
    assert(0 <= a * n) by (nonlinear_arith)
        requires
            0 <= a,
            0 <= n,
    ;
    assert((d * n) / d == n) by (nonlinear_arith)
        requires
            0 < d,
    ;
    vstd::arithmetic::div_mod::lemma_div_is_ordered(a * n, d * n, d);
    vstd::arithmetic::div_mod::lemma_div_pos_is_pos(a * n, d);
}

impl DripPool {
    /// Token identifier of the pool.
    pub open spec fn token_id(self) -> Seq<char> {
        self.drip_token.id()
    }

    /// The pool still has epochs to release.
    pub open spec fn is_active(self) -> bool {
        self.epoch < self.epochs_number
    }

    /// Tokens released so far.
    pub open spec fn released(self) -> int {
        self.epoch * self.tokens_per_epoch
    }

    /// The pool's accounting is consistent: the epoch counter stays within the
    /// campaign, the funded amount is exactly what the epochs release, what is
    /// still available is what has not been released, and no more is
    /// withdrawable than was released.
    pub open spec fn wf(self) -> bool {
        &&& self.epoch <= self.epochs_number
        &&& self.initial_amount == self.tokens_per_epoch * self.epochs_number
        &&& self.drip_token.available() + self.released() == self.initial_amount
        &&& self.withdrawable_tokens <= self.released()
    }

    /// The pool with `tokens` less available.
    pub open spec fn debited(self, tokens: u128) -> DripPool {
        DripPool {
            drip_token: self.drip_token.with_amount((self.drip_token.available() - tokens) as u128),
            ..self
        }
    }

    /// A new pool at epoch zero, holding its whole funding.
    pub open spec fn fresh(token: DripToken, tokens_per_epoch: u128, epochs_number: u64) -> DripPool {
        DripPool {
            drip_token: token,
            initial_amount: token.available(),
            withdrawable_tokens: 0,
            tokens_per_epoch,
            issued_shares: 0,
            epochs_number,
            epoch: 0,
        }
    }

    /// The pool after one epoch releases its tranche and `emitted` shares are issued.
    pub open spec fn advanced(self, emitted: u128) -> DripPool {
        DripPool {
            drip_token: self.drip_token.with_amount(
                (self.drip_token.available() - self.tokens_per_epoch) as u128,
            ),
            withdrawable_tokens: (self.withdrawable_tokens + self.tokens_per_epoch) as u128,
            issued_shares: (self.issued_shares + emitted) as u128,
            epoch: (self.epoch + 1) as u64,
            ..self
        }
    }

    /// Whether an epoch can be released with `emitted` new shares: the pool is
    /// active, holds a tranche, and its counters stay in range.
    pub open spec fn can_advance(self, emitted: u128) -> bool {
        &&& self.is_active()
        &&& self.drip_token.available() >= self.tokens_per_epoch
        &&& self.issued_shares + emitted <= u128::MAX
        &&& self.withdrawable_tokens + self.tokens_per_epoch <= u128::MAX
    }

    /// The error that releasing an epoch with `emitted` new shares meets, if
    /// any: an exhausted pool, less than a tranche available, or a counter
    /// leaving its range, checked in that order.
    pub open spec fn advance_error(self, emitted: u128) -> Option<ContractError> {
        if !self.is_active() {
            Some(ContractError::InvalidActiveDripPool)
        } else if self.drip_token.available() < self.tokens_per_epoch {
            Some(ContractError::DripPoolHasNotENoughFunds)
        } else if !self.can_advance(emitted) {
            Some(ContractError::Overflow {})
        } else {
            None
        }
    }

    /// Tokens redeemed by `shares`: `shares * withdrawable / issued`, floored;
    /// zero while no share has been issued.
    pub open spec fn tokens_for(self, shares: u128) -> int {
        if self.issued_shares == 0 {
            0
        } else {
            ratio(shares as int, self.withdrawable_tokens as int, self.issued_shares as int)
        }
    }

    /// The pool after a withdrawal of `shares` burns them and pays out their tokens.
    pub open spec fn settled(self, shares: u128) -> DripPool {
        DripPool {
            withdrawable_tokens: (self.withdrawable_tokens - self.tokens_for(shares)) as u128,
            issued_shares: (self.issued_shares - shares) as u128,
            ..self
        }
    }

    /// A copy of the pool.
    pub fn duplicate(&self) -> (r: DripPool)
        ensures
            r == *self,
    {
        let drip_token = match &self.drip_token {
            DripToken::Native { denom, amount } => DripToken::Native { denom: denom.clone(), amount: *amount },
            DripToken::CW20 { address, amount } => DripToken::CW20 { address: address.clone(), amount: *amount },
        };
        DripPool {
            drip_token,
            initial_amount: self.initial_amount,
            withdrawable_tokens: self.withdrawable_tokens,
            tokens_per_epoch: self.tokens_per_epoch,
            issued_shares: self.issued_shares,
            epochs_number: self.epochs_number,
            epoch: self.epoch,
        }
    }

    /// A pool of the first epoch with `tokens_per_epoch * epochs_number` available.
    pub fn new(token: DripToken, tokens_per_epoch: u128, epochs_number: u64) -> (r: DripPool)
        ensures
            r == DripPool::fresh(token, tokens_per_epoch, epochs_number),
    {
        let initial_amount = token.get_available_amount();
        DripPool {
            drip_token: token,
            initial_amount,
            withdrawable_tokens: 0,
            tokens_per_epoch,
            issued_shares: 0,
            epochs_number,
            epoch: 0,
        }
    }

    /// Releases one epoch: fails with `InvalidActiveDripPool` on an exhausted
    /// pool, with `DripPoolHasNotENoughFunds` when less than a tranche is
    /// available, with `Overflow` when a counter would leave its range; else
    /// moves a tranche from available to withdrawable, issues `emitted` shares
    /// and returns whether the pool is still active.
    pub fn advance_epoch(&mut self, emitted: u128) -> (r: Result<bool, ContractError>)
        ensures
            !old(self).is_active() ==> r == Err::<bool, ContractError>(
                ContractError::InvalidActiveDripPool,
            ),
            old(self).is_active() && old(self).drip_token.available() < old(self).tokens_per_epoch
                ==> r == Err::<bool, ContractError>(ContractError::DripPoolHasNotENoughFunds),
            old(self).is_active() && old(self).drip_token.available() >= old(self).tokens_per_epoch
                && !old(self).can_advance(emitted) ==> r == Err::<bool, ContractError>(
                ContractError::Overflow {},
            ),
            r is Ok <==> old(self).can_advance(emitted),
            r is Ok ==> *final(self) == old(self).advanced(emitted),
            r is Ok ==> r->Ok_0 == final(self).is_active(),
            r is Err ==> *final(self) == *old(self),
            r is Ok && old(self).wf() ==> final(self).wf(),
    {
        if self.epoch >= self.epochs_number {
            return Err(ContractError::InvalidActiveDripPool);
        }
        if self.drip_token.get_available_amount() < self.tokens_per_epoch {
            return Err(ContractError::DripPoolHasNotENoughFunds);
        }
        let issued = match self.issued_shares.checked_add(emitted) {
            Some(v) => v,
            None => return Err(ContractError::Overflow {}),
        };
        let withdrawable = match self.withdrawable_tokens.checked_add(self.tokens_per_epoch) {
            Some(v) => v,
            None => return Err(ContractError::Overflow {}),
        };
        let ghost before = *self;
        let tokens = self.tokens_per_epoch;
        self.remove_available_tokens(tokens);
        self.issued_shares = issued;
        self.withdrawable_tokens = withdrawable;
        self.epoch = self.epoch + 1;
        proof {
            if before.wf() {
                assert(before.released() + before.tokens_per_epoch == (before.epoch + 1)
                    * before.tokens_per_epoch) by (nonlinear_arith);
            }
        }
        Ok(self.epoch < self.epochs_number)
    }

    /// Debits `tokens` from the amount of the pool's token still available.
    pub fn remove_available_tokens(&mut self, tokens: u128)
        requires
            tokens <= old(self).drip_token.available(),
        ensures
            *final(self) == old(self).debited(tokens),
    {
        match &mut self.drip_token {
            DripToken::Native { amount, .. } => {
                *amount = *amount - tokens;
            },
            DripToken::CW20 { amount, .. } => {
                *amount = *amount - tokens;
            },
        }
    }

    /// Tokens associated to `shares`: `shares * withdrawable / issued`,
    /// floored, or zero while no share has been issued.
    pub fn tokens_from_shares(&self, shares: u128) -> (r: u128)
        requires
            self.issued_shares == 0 || ratio(
                shares as int,
                self.withdrawable_tokens as int,
                self.issued_shares as int,
            ) <= u128::MAX,
        ensures
            r == self.tokens_for(shares),
    {
        if self.issued_shares == 0 {
            0
        } else {
            multiply_ratio(shares, self.withdrawable_tokens, self.issued_shares)
        }
    }

    /// Burns `shares` and removes the tokens they redeem from the withdrawable
    /// balance, both at once.
    pub fn remove_tokens_and_shares(&mut self, shares: u128)
        requires
            shares <= old(self).issued_shares,
        ensures
            *final(self) == old(self).settled(shares),
            old(self).tokens_for(shares) <= old(self).withdrawable_tokens,
            old(self).wf() ==> final(self).wf(),
    {
        proof {
            if self.issued_shares > 0 {
                lemma_ratio_bounded(
                    shares as int,
                    self.withdrawable_tokens as int,
                    self.issued_shares as int,
                );
            }
        }
        let tokens = self.tokens_from_shares(shares);
        self.withdrawable_tokens = self.withdrawable_tokens - tokens;
        self.issued_shares = self.issued_shares - shares;
    }

    /// The transfer of `amount` of the pool's token to `recipient`: a bank
    /// send for a native token, a call of the token contract otherwise.
    pub open spec fn transfer_to(self, amount: u128, recipient: String) -> TransferMsg {
        match self.drip_token {
            DripToken::Native { denom, .. } => TransferMsg::BankSend {
                to_address: recipient,
                denom,
                amount,
            },
            DripToken::CW20 { address, .. } => TransferMsg::Cw20Transfer {
                contract_addr: address,
                recipient,
                amount,
            },
        }
    }

    /// The transfer that pays `send_amount` of the pool's token to `recipient`.
    pub fn send_tokens_message(&self, send_amount: u128, recipient: &String) -> (r: TransferMsg)
        ensures
            r == self.transfer_to(send_amount, *recipient),
    {
        match &self.drip_token {
            DripToken::Native { denom, .. } => TransferMsg::BankSend {
                to_address: recipient.clone(),
                denom: denom.clone(),
                amount: send_amount,
            },
            DripToken::CW20 { address, .. } => TransferMsg::Cw20Transfer {
                contract_addr: address.clone(),
                recipient: recipient.clone(),
                amount: send_amount,
            },
        }
    }
}

/// Withdrawal correctness: the tokens redeemed by `shares` are
/// `shares * withdrawable / issued`, floored; settling burns exactly `shares`
/// and removes exactly those tokens, and never more tokens than are
/// withdrawable.
pub proof fn lemma_withdrawal_amount(pool: DripPool, shares: u128)
    requires
        pool.issued_shares > 0,
        shares <= pool.issued_shares,
    ensures
        pool.tokens_for(shares) == (shares * pool.withdrawable_tokens) / (pool.issued_shares as int),
        pool.tokens_for(shares) <= pool.withdrawable_tokens,
        pool.settled(shares).issued_shares == pool.issued_shares - shares,
        pool.settled(shares).withdrawable_tokens == pool.withdrawable_tokens - pool.tokens_for(shares),
{
    reveal(ratio);
    lemma_ratio_bounded(shares as int, pool.withdrawable_tokens as int, pool.issued_shares as int);
}

/// A consistent pool that still has epochs to release can always release one,
/// as long as its issued shares stay in range.
pub proof fn lemma_active_can_advance(pool: DripPool, emitted: u128)
    requires
        pool.wf(),
        pool.is_active(),
        pool.issued_shares + emitted <= u128::MAX,
    ensures
        pool.can_advance(emitted),
{
    let t = pool.tokens_per_epoch;
    let k = pool.epochs_number;
    assert(pool.epoch * t + t == (pool.epoch + 1) * t) by (nonlinear_arith);
    assert((pool.epoch + 1) * t <= t * k) by (nonlinear_arith)
        requires
            pool.epoch + 1 <= k,
    ;
    assert(t * k - pool.epoch * t >= t) by (nonlinear_arith)
        requires
            pool.epoch + 1 <= k,
            t >= 0,
    ;
}

/// The pool after one epoch released per element of `emitted`, each issuing
/// that many shares, in order.
pub open spec fn advanced_times(pool: DripPool, emitted: Seq<u128>) -> DripPool
    decreases emitted.len(),
{
    if emitted.len() == 0 {
        pool
    } else {
        advanced_times(pool, emitted.drop_last()).advanced(emitted.last())
    }
}

/// Each of the releases that `advanced_times` describes is accepted.
pub open spec fn advances_succeed(pool: DripPool, emitted: Seq<u128>) -> bool
    decreases emitted.len(),
{
    if emitted.len() == 0 {
        true
    } else {
        advances_succeed(pool, emitted.drop_last()) && advanced_times(
            pool,
            emitted.drop_last(),
        ).can_advance(emitted.last())
    }
}

/// Sum of a sequence of share emissions.
pub open spec fn total_emitted(emitted: Seq<u128>) -> int
    decreases emitted.len(),
{
    if emitted.len() == 0 {
        0
    } else {
        total_emitted(emitted.drop_last()) + emitted.last()
    }
}

/// What `n` successful releases do to a well-formed pool: the epoch counter,
/// withdrawable balance and issued shares grow by `n`, `n` tranches and the
/// emitted shares, the available amount drops by `n` tranches, and the pool
/// stays well formed.
pub proof fn lemma_advances(pool: DripPool, emitted: Seq<u128>)
    requires
        pool.wf(),
        advances_succeed(pool, emitted),
    ensures
        advanced_times(pool, emitted).wf(),
        advanced_times(pool, emitted).epoch == pool.epoch + emitted.len(),
        advanced_times(pool, emitted).withdrawable_tokens == pool.withdrawable_tokens
            + emitted.len() * pool.tokens_per_epoch,
        advanced_times(pool, emitted).drip_token.available() == pool.drip_token.available()
            - emitted.len() * pool.tokens_per_epoch,
        advanced_times(pool, emitted).issued_shares == pool.issued_shares + total_emitted(emitted),
        advanced_times(pool, emitted).token_id() == pool.token_id(),
        advanced_times(pool, emitted).tokens_per_epoch == pool.tokens_per_epoch,
        advanced_times(pool, emitted).epochs_number == pool.epochs_number,
        advanced_times(pool, emitted).initial_amount == pool.initial_amount,
    decreases emitted.len(),
{
    if emitted.len() > 0 {
        let prev = emitted.drop_last();
        lemma_advances(pool, prev);
        let p = advanced_times(pool, prev);
        let n = prev.len();
        let t = pool.tokens_per_epoch;
        assert(p.epoch * t + t == (p.epoch + 1) * t) by (nonlinear_arith);
        assert(n * t + t == (n + 1) * t) by (nonlinear_arith);
    }
}

/// Proportionality: after `n` successful releases of a pool that has released
/// nothing yet, `n` tranches are withdrawable and the available amount is the
/// funding less `n` tranches.
pub proof fn lemma_proportionality(pool: DripPool, emitted: Seq<u128>)
    requires
        pool.wf(),
        pool.epoch == 0,
        pool.withdrawable_tokens == 0,
        advances_succeed(pool, emitted),
    ensures
        advanced_times(pool, emitted).withdrawable_tokens == emitted.len() * pool.tokens_per_epoch,
        advanced_times(pool, emitted).drip_token.available() == pool.initial_amount - emitted.len()
            * pool.tokens_per_epoch,
{
    lemma_advances(pool, emitted);
}

/// Exhaustion: a new pool of `K` epochs, whose issued shares stay in range,
/// accepts a run of releases exactly when the run is at most `K` long; after
/// `K` of them it is no longer active, so a further release is refused with
/// `InvalidActiveDripPool`.
pub proof fn lemma_exhaustion(pool: DripPool, emitted: Seq<u128>)
    requires
        pool.wf(),
        pool.epoch == 0,
        pool.issued_shares == 0,
        total_emitted(emitted) <= u128::MAX,
    ensures
        advances_succeed(pool, emitted) <==> emitted.len() <= pool.epochs_number,
        advances_succeed(pool, emitted) ==> (advanced_times(pool, emitted).is_active()
            <==> emitted.len() < pool.epochs_number),
    decreases emitted.len(),
{
    if emitted.len() > 0 {
        let prev = emitted.drop_last();
        assert(total_emitted(prev) <= total_emitted(emitted));
        lemma_exhaustion(pool, prev);
        if advances_succeed(pool, prev) {
            lemma_advances(pool, prev);
            let p = advanced_times(pool, prev);
            let t = pool.tokens_per_epoch;
            let k = pool.epochs_number;
            if p.epoch < k {
                assert((p.epoch + 1) * t <= t * k) by (nonlinear_arith)
                    requires
                        p.epoch + 1 <= k,
                ;
                assert(p.epoch * t + t == (p.epoch + 1) * t) by (nonlinear_arith);
                assert(t * k - p.epoch * t >= t) by (nonlinear_arith)
                    requires
                        p.epoch + 1 <= k,
                        t >= 0,
                ;
                assert(p.can_advance(emitted.last()));
            }
        }
    }
}

} // verus!

use vstd::prelude::*;

use crate::error::ContractError;
use vstd::utf8::encode_utf8;

verus! {

/// Shares accrued by one participant in the pool of one token.
#[derive(Debug, Clone, PartialEq, Eq)]
pub struct ShareEntry {
    pub participant: String,
    pub token: String,
    pub shares: u128,
}

/// Accrued shares, keyed by participant and token identifier.
#[derive(Debug, Clone, PartialEq, Eq)]
pub struct ShareLedger {
    pub entries: Vec<ShareEntry>,
}

/// The entry is keyed by participant `p` and token `t`.
pub open spec fn keyed(e: ShareEntry, p: Seq<char>, t: Seq<char>) -> bool {
    e.participant@ == p && e.token@ == t
}


/// Sum of the shares of the entries for token `t`.
pub open spec fn token_total(s: Seq<ShareEntry>, t: Seq<char>) -> int
    decreases s.len(),
{
    if s.len() == 0 {
        0
    } else {
        token_total(s.drop_last(), t) + if s.last().token@ == t {
            s.last().shares as int
        } else {
            0
        }
    }
}

/// The shares an entry counts for in the total of token `t`.
pub open spec fn part_of(e: ShareEntry, t: Seq<char>) -> int {
    if e.token@ == t {
        e.shares as int
    } else {
        0
    }
}

proof fn lemma_token_total_update(s: Seq<ShareEntry>, i: int, e: ShareEntry, t: Seq<char>)
    requires
        0 <= i < s.len(),
    ensures
        token_total(s.update(i, e), t) == token_total(s, t) - part_of(s[i], t) + part_of(e, t),
    decreases s.len(),
{
    if i < s.len() - 1 {
        assert(s.update(i, e).drop_last() =~= s.drop_last().update(i, e));
        lemma_token_total_update(s.drop_last(), i, e, t);
    } else {
        assert(s.update(i, e).drop_last() =~= s.drop_last());
    }
}

proof fn lemma_token_total_remove(s: Seq<ShareEntry>, i: int, t: Seq<char>)
    requires
        0 <= i < s.len(),
    ensures
        token_total(s.remove(i), t) == token_total(s, t) - part_of(s[i], t),
    decreases s.len(),
{
    if i < s.len() - 1 {
        assert(s.remove(i).drop_last() =~= s.drop_last().remove(i));
        assert(s.remove(i).last() == s.last());
        lemma_token_total_remove(s.drop_last(), i, t);
    } else {
        assert(s.remove(i) =~= s.drop_last());
    }
}

/// An entry's shares are part of its token's total, which is never negative.
pub proof fn lemma_token_total_ge(s: Seq<ShareEntry>, i: int, t: Seq<char>)
    requires
        0 <= i < s.len(),
    ensures
        token_total(s, t) >= part_of(s[i], t),
    decreases s.len(),
{
    lemma_token_total_nonneg(s.drop_last(), t);
    if i < s.len() - 1 {
        lemma_token_total_ge(s.drop_last(), i, t);
    }
}

pub proof fn lemma_token_total_nonneg(s: Seq<ShareEntry>, t: Seq<char>)
    ensures
        token_total(s, t) >= 0,
    decreases s.len(),
{
    if s.len() > 0 {
        lemma_token_total_nonneg(s.drop_last(), t);
    }
}

/// Without an entry for token `t`, its total is zero.
pub proof fn lemma_token_total_none(s: Seq<ShareEntry>, t: Seq<char>)
    requires
        forall|i: int| 0 <= i < s.len() ==> (#[trigger] s[i]).token@ != t,
    ensures
        token_total(s, t) == 0,
    decreases s.len(),
{
    if s.len() > 0 {
        lemma_token_total_none(s.drop_last(), t);
    }
}

/// Byte-wise lexicographic order: a proper prefix comes first.
pub open spec fn lex_lt(a: Seq<u8>, b: Seq<u8>) -> bool
    decreases a.len(),
{
    if b.len() == 0 {
        false
    } else if a.len() == 0 {
        true
    } else if a[0] != b[0] {
        a[0] < b[0]
    } else {
        lex_lt(a.drop_first(), b.drop_first())
    }
}

/// Token identifiers are ordered by their UTF-8 bytes.
pub open spec fn token_lt(a: Seq<char>, b: Seq<char>) -> bool {
    lex_lt(encode_utf8(a), encode_utf8(b))
}

proof fn lemma_lex_trans(a: Seq<u8>, b: Seq<u8>, c: Seq<u8>)
    requires
        lex_lt(a, b),
        lex_lt(b, c),
    ensures
        lex_lt(a, c),
    decreases a.len(),
{
    if a.len() > 0 && a[0] == b[0] && b[0] == c[0] {
        lemma_lex_trans(a.drop_first(), b.drop_first(), c.drop_first());
    }
}

proof fn lemma_lex_asym(a: Seq<u8>, b: Seq<u8>)
    requires
        lex_lt(a, b),
    ensures
        !lex_lt(b, a),
    decreases a.len(),
{
    if a.len() > 0 && a[0] == b[0] {
        lemma_lex_asym(a.drop_first(), b.drop_first());
    }
}

proof fn lemma_lex_total(a: Seq<u8>, b: Seq<u8>)
    requires
        a != b,
    ensures
        lex_lt(a, b) || lex_lt(b, a),
    decreases a.len(),
{
    if a.len() > 0 && b.len() > 0 && a[0] == b[0] {
        if a.drop_first() == b.drop_first() {
            assert(a =~= seq![a[0]] + a.drop_first());
            assert(b =~= seq![b[0]] + b.drop_first());
        }
        lemma_lex_total(a.drop_first(), b.drop_first());
    } else if a.len() == 0 && b.len() == 0 {
        assert(a =~= b);
    }
}

/// No identifier comes before itself.
pub proof fn lemma_token_irreflexive(a: Seq<char>)
    ensures
        !token_lt(a, a),
{
    if token_lt(a, a) {
        lemma_lex_asym(encode_utf8(a), encode_utf8(a));
    }
}

/// Distinct identifiers are ordered one way or the other, and never both.
proof fn lemma_token_total(a: Seq<char>, b: Seq<char>)
    requires
        a != b,
    ensures
        token_lt(a, b) || token_lt(b, a),
        token_lt(a, b) ==> !token_lt(b, a),
{
    vstd::utf8::encode_utf8_decode_utf8(a);
    vstd::utf8::encode_utf8_decode_utf8(b);
    lemma_lex_total(encode_utf8(a), encode_utf8(b));
    if token_lt(a, b) {
        lemma_lex_asym(encode_utf8(a), encode_utf8(b));
    }
}

fn bytes_lt(a: &[u8], b: &[u8]) -> (r: bool)
    ensures
        r == lex_lt(a@, b@),
{
    let mut i: usize = 0;
    assert(a@.subrange(0, a@.len() as int) =~= a@);
    assert(b@.subrange(0, b@.len() as int) =~= b@);
    while i < a.len() && i < b.len()
        invariant
            i <= a@.len(),
            i <= b@.len(),
            lex_lt(a@, b@) == lex_lt(a@.subrange(i as int, a@.len() as int), b@.subrange(i as int, b@.len() as int)),
        decreases a@.len() - i,
    {
        if a[i] != b[i] {
            return a[i] < b[i];
        }
        assert(a@.subrange(i as int, a@.len() as int).drop_first() =~= a@.subrange(i + 1, a@.len() as int));
        assert(b@.subrange(i as int, b@.len() as int).drop_first() =~= b@.subrange(i + 1, b@.len() as int));
        i = i + 1;
    }
    i < b.len()
}

/// Whether token `a` comes before token `b`.
fn token_less(a: &String, b: &String) -> (r: bool)
    ensures
        r == token_lt(a@, b@),
{
    bytes_lt(a.as_str().as_bytes(), b.as_str().as_bytes())
}

/// Pairs in strictly ascending order of token.
pub open spec fn sorted_by_token(s: Seq<(String, u128)>) -> bool {
    forall|k: int, l: int| 0 <= k < l < s.len() ==> token_lt(#[trigger] s[k].0@, #[trigger] s[l].0@)
}

/// Inserts `item` where the order of tokens puts it.
fn insert_sorted(out: &mut Vec<(String, u128)>, item: (String, u128))
    requires
        sorted_by_token(old(out)@),
        forall|k: int| 0 <= k < old(out)@.len() ==> #[trigger] old(out)@[k].0@ != item.0@,
    ensures
        sorted_by_token(final(out)@),
        final(out)@.len() == old(out)@.len() + 1,
        forall|x: (String, u128)| #[trigger] final(out)@.contains(x) <==> (old(out)@.contains(x) || x == item),
{
    let mut pos: usize = 0;
    while pos < out.len() && token_less(&out[pos].0, &item.0)
        invariant
            pos <= out@.len(),
            forall|k: int| 0 <= k < pos ==> token_lt(#[trigger] out@[k].0@, item.0@),
        decreases out@.len() - pos,
    {
        pos = pos + 1;
    }
    let ghost prev = out@;
    let ghost it = item;
    proof {
        if pos < out@.len() {
            lemma_token_total(out@[pos as int].0@, item.0@);
            assert forall|l: int| pos <= l < out@.len() implies token_lt(item.0@, #[trigger] out@[l].0@) by {
                if l > pos {
                    lemma_lex_trans(encode_utf8(item.0@), encode_utf8(out@[pos as int].0@), encode_utf8(out@[l].0@));
                }
            }
        }
    }
    out.insert(pos, item);
    proof {
        assert forall|k: int, l: int|
            0 <= k < l < out@.len() implies token_lt(#[trigger] out@[k].0@, #[trigger] out@[l].0@) by {
            if k < pos && l < pos {
                assert(out@[k] == prev[k] && out@[l] == prev[l]);
            } else if k < pos && l == pos {
            } else if k < pos {
                assert(out@[k] == prev[k] && out@[l] == prev[l - 1]);
                lemma_lex_trans(encode_utf8(prev[k].0@), encode_utf8(it.0@), encode_utf8(prev[l - 1].0@));
            } else if k == pos {
                assert(out@[l] == prev[l - 1]);
            } else {
                assert(out@[k] == prev[k - 1] && out@[l] == prev[l - 1]);
            }
        }
        assert forall|x: (String, u128)| #[trigger] out@.contains(x) <==> (prev.contains(x) || x == it) by {
            if out@.contains(x) {
                let k = choose|k: int| 0 <= k < out@.len() && out@[k] == x;
                if k < pos {
                    assert(prev[k] == x);
                } else if k > pos {
                    assert(prev[k - 1] == x);
                }
            }
            if prev.contains(x) {
                let k = choose|k: int| 0 <= k < prev.len() && prev[k] == x;
                if k < pos {
                    assert(out@[k] == x);
                } else {
                    assert(out@[k + 1] == x);
                }
            }
            if x == it {
                assert(out@[pos as int] == x);
            }
        }
    }
}

impl ShareLedger {
    /// No two entries share a key.
    pub open spec fn wf(self) -> bool {
        forall|i: int, j: int|
            #![trigger self.entries@[i], self.entries@[j]]
            0 <= i < self.entries@.len() && 0 <= j < self.entries@.len() && i != j ==> !keyed(
                self.entries@[i],
                self.entries@[j].participant@,
                self.entries@[j].token@,
            )
    }

    /// There is an entry for participant `p` and token `t`.
    pub open spec fn has(self, p: Seq<char>, t: Seq<char>) -> bool {
        exists|i: int| 0 <= i < self.entries@.len() && #[trigger] keyed(self.entries@[i], p, t)
    }

    /// The shares of participant `p` in the pool of token `t`, zero without an entry.
    pub open spec fn shares_of(self, p: Seq<char>, t: Seq<char>) -> nat {
        if self.has(p, t) {
            self.entries@[choose|i: int|
                0 <= i < self.entries@.len() && #[trigger] keyed(self.entries@[i], p, t)].shares as nat
        } else {
            0
        }
    }

    /// Participant `p` has at least one entry.
    pub open spec fn has_any(self, p: Seq<char>) -> bool {
        exists|i: int| 0 <= i < self.entries@.len() && #[trigger] self.entries@[i].participant@ == p
    }

    /// The entry at `i` is the one that `has` and `shares_of` find for its key.
    pub proof fn lemma_entry_at(self, i: int)
        requires
            self.wf(),
            0 <= i < self.entries@.len(),
        ensures
            self.has(self.entries@[i].participant@, self.entries@[i].token@),
            self.shares_of(self.entries@[i].participant@, self.entries@[i].token@)
                == self.entries@[i].shares,
    {
        let p = self.entries@[i].participant@;
        let t = self.entries@[i].token@;
        assert(keyed(self.entries@[i], p, t));
        let j = choose|j: int| 0 <= j < self.entries@.len() && #[trigger] keyed(self.entries@[j], p, t);
        if j != i {
            assert(!keyed(self.entries@[j], self.entries@[i].participant@, self.entries@[i].token@));
        }
    }

    /// An empty ledger.
    pub fn new() -> (r: ShareLedger)
        ensures
            r.wf(),
            r.entries@.len() == 0,
            forall|p: Seq<char>, t: Seq<char>| !r.has(p, t),
    {
        ShareLedger { entries: Vec::new() }
    }

    /// A copy of the ledger.
    pub fn duplicate(&self) -> (r: ShareLedger)
        ensures
            r.entries@ == self.entries@,
    {
        let mut entries: Vec<ShareEntry> = Vec::new();
        let mut i: usize = 0;
        while i < self.entries.len()
            invariant
                i <= self.entries@.len(),
                entries@ == self.entries@.take(i as int),
            decreases self.entries@.len() - i,
        {
            let e = &self.entries[i];
            entries.push(ShareEntry { participant: e.participant.clone(), token: e.token.clone(), shares: e.shares });
            proof {
                assert(entries@ =~= self.entries@.take(i + 1));
            }
            i = i + 1;
        }
        proof {
            assert(self.entries@.take(self.entries@.len() as int) =~= self.entries@);
        }
        ShareLedger { entries }
    }

    /// The position of the entry for participant `p` and token `t`, if any.
    pub fn find(&self, p: &String, t: &String) -> (r: Option<usize>)
        ensures
            r is Some ==> r->Some_0 < self.entries@.len() && keyed(
                self.entries@[r->Some_0 as int],
                p@,
                t@,
            ),
            r is None ==> !self.has(p@, t@),
    {
        let mut i: usize = 0;
        while i < self.entries.len()
            invariant
                i <= self.entries@.len(),
                forall|j: int| 0 <= j < i ==> !#[trigger] keyed(self.entries@[j], p@, t@),
            decreases self.entries@.len() - i,
        {
            let e = &self.entries[i];
            if e.participant == *p && e.token == *t {
                return Some(i);
            }
            i = i + 1;
        }
        None
    }

    /// The shares of participant `p` in the pool of token `t`; zero without an entry.
    pub fn get_shares(&self, p: &String, t: &String) -> (r: u128)
        requires
            self.wf(),
        ensures
            r == self.shares_of(p@, t@),
    {
        match self.find(p, t) {
            Some(i) => {
                proof {
                    self.lemma_entry_at(i as int);
                }
                self.entries[i].shares
            },
            None => 0,
        }
    }

    /// Adds `amount` to the shares of participant `p` in the pool of token `t`,
    /// creating the entry on first accrual; fails with `Overflow`, leaving the
    /// ledger as it was, when the sum leaves the range of `u128`.
    pub fn accrue(&mut self, p: &String, t: &String, amount: u128) -> (r: Result<(), ContractError>)
        requires
            old(self).wf(),
        ensures
            r is Ok <==> old(self).shares_of(p@, t@) + amount <= u128::MAX,
            r is Err ==> r == Err::<(), ContractError>(ContractError::Overflow {}),
            r is Err ==> *final(self) == *old(self),
            final(self).wf(),
            r is Ok ==> forall|p2: Seq<char>, t2: Seq<char>|
                #![trigger final(self).shares_of(p2, t2)]
                final(self).shares_of(p2, t2) == old(self).shares_of(p2, t2) + (if p2 == p@ && t2
                    == t@ {
                    amount as nat
                } else {
                    0
                }),
            r is Ok ==> forall|p2: Seq<char>, t2: Seq<char>|
                #![trigger final(self).has(p2, t2)]
                final(self).has(p2, t2) == (old(self).has(p2, t2) || (p2 == p@ && t2 == t@)),
            r is Ok ==> forall|p2: Seq<char>|
                #![trigger final(self).has_any(p2)]
                final(self).has_any(p2) == (old(self).has_any(p2) || p2 == p@),
            forall|k: int|
                0 <= k < final(self).entries@.len() ==> old(self).entries@.contains(
                    #[trigger] final(self).entries@[k],
                ) || keyed(final(self).entries@[k], p@, t@),
            r is Ok ==> forall|t2: Seq<char>|
                #[trigger] token_total(final(self).entries@, t2) == token_total(old(self).entries@, t2)
                    + if t2 == t@ {
                    amount as int
                } else {
                    0
                },
    {
        let ghost before = *self;
        match self.find(p, t) {
            Some(i) => {
                proof {
                    before.lemma_entry_at(i as int);
                }
                let sum = match self.entries[i].shares.checked_add(amount) {
                    Some(v) => v,
                    None => return Err(ContractError::Overflow {}),
                };
                let entry = ShareEntry { participant: p.clone(), token: t.clone(), shares: sum };
                self.entries.set(i, entry);
                proof {
                    assert forall|t2: Seq<char>| #[trigger] token_total(self.entries@, t2) == token_total(before.entries@, t2)
                        + if t2 == t@ { amount as int } else { 0 } by {
                        assert(self.entries@ == before.entries@.update(i as int, self.entries@[i as int]));
                        lemma_token_total_update(before.entries@, i as int, self.entries@[i as int], t2);
                    }
                    self.lemma_updated_at(before, i as int);
                    assert forall|k: int|
                        0 <= k < self.entries@.len() && k != i implies before.entries@.contains(
                            #[trigger] self.entries@[k],
                        ) by {
                        assert(before.entries@[k] == self.entries@[k]);
                    }
                }
            },
            None => {
                let entry = ShareEntry { participant: p.clone(), token: t.clone(), shares: amount };
                self.entries.push(entry);
                proof {
                    assert(self.entries@.drop_last() =~= before.entries@);
                    self.lemma_pushed(before);
                    assert forall|t2: Seq<char>| #[trigger] token_total(self.entries@, t2) == token_total(before.entries@, t2)
                        + if t2 == t@ { amount as int } else { 0 } by {
                        assert(self.entries@.last().token@ == t@);
                    }
                    assert forall|k: int|
                        0 <= k < before.entries@.len() implies before.entries@.contains(
                            #[trigger] self.entries@[k],
                        ) by {
                        assert(before.entries@[k] == self.entries@[k]);
                    }
                }
            },
        }
        Ok(())
    }

    /// What replacing the entry at `i` by one of the same key does to the ledger.
    proof fn lemma_updated_at(self, before: ShareLedger, i: int)
        requires
            before.wf(),
            0 <= i < before.entries@.len(),
            self.entries@ == before.entries@.update(i, self.entries@[i]),
            keyed(self.entries@[i], before.entries@[i].participant@, before.entries@[i].token@),
        ensures
            self.wf(),
            self.shares_of(self.entries@[i].participant@, self.entries@[i].token@)
                == self.entries@[i].shares,
            forall|p2: Seq<char>, t2: Seq<char>|
                #![trigger self.shares_of(p2, t2)]
                !keyed(self.entries@[i], p2, t2) ==> self.shares_of(p2, t2) == before.shares_of(
                    p2,
                    t2,
                ),
            forall|p2: Seq<char>, t2: Seq<char>| #[trigger]
                self.has(p2, t2) == before.has(p2, t2),
            forall|p2: Seq<char>| #[trigger] self.has_any(p2) == before.has_any(p2),
    {
        assert forall|a: int, b: int|
            #![trigger self.entries@[a], self.entries@[b]]
            0 <= a < self.entries@.len() && 0 <= b < self.entries@.len() && a != b implies !keyed(
                self.entries@[a],
                self.entries@[b].participant@,
                self.entries@[b].token@,
            ) by {
            assert(!keyed(
                before.entries@[a],
                before.entries@[b].participant@,
                before.entries@[b].token@,
            ));
        }
        self.lemma_entry_at(i);
        assert forall|p2: Seq<char>, t2: Seq<char>| #[trigger]
            self.has(p2, t2) == before.has(p2, t2) by {
            if self.has(p2, t2) {
                let j = choose|j: int| 0 <= j < self.entries@.len() && #[trigger] keyed(self.entries@[j], p2, t2);
                assert(keyed(before.entries@[j], p2, t2));
            }
            if before.has(p2, t2) {
                let j = choose|j: int| 0 <= j < before.entries@.len() && #[trigger] keyed(before.entries@[j], p2, t2);
                assert(keyed(self.entries@[j], p2, t2));
            }
        }
        assert forall|p2: Seq<char>, t2: Seq<char>|
            !keyed(self.entries@[i], p2, t2) implies #[trigger] self.shares_of(p2, t2)
            == before.shares_of(p2, t2) by {
            if self.has(p2, t2) {
                let j = choose|j: int| 0 <= j < self.entries@.len() && #[trigger] keyed(self.entries@[j], p2, t2);
                self.lemma_entry_at(j);
                before.lemma_entry_at(j);
            }
        }
        assert forall|p2: Seq<char>| #[trigger] self.has_any(p2) == before.has_any(p2) by {
            if self.has_any(p2) {
                let j = choose|j: int| 0 <= j < self.entries@.len() && #[trigger] self.entries@[j].participant@ == p2;
                assert(before.entries@[j].participant@ == p2);
            }
            if before.has_any(p2) {
                let j = choose|j: int| 0 <= j < before.entries@.len() && #[trigger] before.entries@[j].participant@ == p2;
                assert(self.entries@[j].participant@ == p2);
            }
        }
    }

    /// What appending an entry of a new key does to the ledger.
    proof fn lemma_pushed(self, before: ShareLedger)
        requires
            before.wf(),
            self.entries@.len() == before.entries@.len() + 1,
            self.entries@.drop_last() == before.entries@,
            !before.has(self.entries@.last().participant@, self.entries@.last().token@),
        ensures
            self.wf(),
            forall|p2: Seq<char>, t2: Seq<char>|
                #![trigger self.shares_of(p2, t2)]
                self.shares_of(p2, t2) == if keyed(self.entries@.last(), p2, t2) {
                    self.entries@.last().shares as nat
                } else {
                    before.shares_of(p2, t2)
                },
            forall|p2: Seq<char>, t2: Seq<char>| #[trigger]
                self.has(p2, t2) == (before.has(p2, t2) || keyed(self.entries@.last(), p2, t2)),
            forall|p2: Seq<char>| #[trigger]
                self.has_any(p2) == (before.has_any(p2) || self.entries@.last().participant@ == p2),
    {
        let n = before.entries@.len() as int;
        assert forall|j: int| 0 <= j < n implies #[trigger] self.entries@[j] == before.entries@[j] by {
            assert(self.entries@.drop_last()[j] == self.entries@[j]);
        }
        assert forall|a: int, b: int|
            #![trigger self.entries@[a], self.entries@[b]]
            0 <= a < self.entries@.len() && 0 <= b < self.entries@.len() && a != b implies !keyed(
                self.entries@[a],
                self.entries@[b].participant@,
                self.entries@[b].token@,
            ) by {
            if a == n {
                assert(keyed(before.entries@[b], self.entries@[n].participant@, self.entries@[n].token@) ==> before.has(self.entries@[n].participant@, self.entries@[n].token@));
            } else if b == n {
                assert(keyed(before.entries@[a], self.entries@[n].participant@, self.entries@[n].token@) ==> before.has(self.entries@[n].participant@, self.entries@[n].token@));
            } else {
                assert(!keyed(
                    before.entries@[a],
                    before.entries@[b].participant@,
                    before.entries@[b].token@,
                ));
            }
        }
        self.lemma_entry_at(n);
        assert forall|p2: Seq<char>, t2: Seq<char>| #[trigger]
            self.has(p2, t2) == (before.has(p2, t2) || keyed(self.entries@.last(), p2, t2)) by {
            if self.has(p2, t2) {
                let j = choose|j: int| 0 <= j < self.entries@.len() && #[trigger] keyed(self.entries@[j], p2, t2);
                if j < n {
                    assert(keyed(before.entries@[j], p2, t2));
                }
            }
            if before.has(p2, t2) {
                let j = choose|j: int| 0 <= j < before.entries@.len() && #[trigger] keyed(before.entries@[j], p2, t2);
                assert(keyed(self.entries@[j], p2, t2));
            }
        }
        assert forall|p2: Seq<char>, t2: Seq<char>| #[trigger]
            self.shares_of(p2, t2) == if keyed(self.entries@.last(), p2, t2) {
                self.entries@.last().shares as nat
            } else {
                before.shares_of(p2, t2)
            } by {
            if self.has(p2, t2) && !keyed(self.entries@.last(), p2, t2) {
                let j = choose|j: int| 0 <= j < self.entries@.len() && #[trigger] keyed(self.entries@[j], p2, t2);
                self.lemma_entry_at(j);
                before.lemma_entry_at(j);
            }
        }
        assert forall|p2: Seq<char>| #[trigger]
            self.has_any(p2) == (before.has_any(p2) || self.entries@.last().participant@ == p2) by {
            if self.has_any(p2) {
                let j = choose|j: int| 0 <= j < self.entries@.len() && #[trigger] self.entries@[j].participant@ == p2;
                if j < n {
                    assert(before.entries@[j].participant@ == p2);
                }
            }
            if before.has_any(p2) {
                let j = choose|j: int| 0 <= j < before.entries@.len() && #[trigger] before.entries@[j].participant@ == p2;
                assert(self.entries@[j].participant@ == p2);
            }
        }
    }

    /// Removes the entry of participant `p` and token `t`, if there is one.
    pub fn clear(&mut self, p: &String, t: &String)
        requires
            old(self).wf(),
        ensures
            final(self).wf(),
            !final(self).has(p@, t@),
            forall|p2: Seq<char>, t2: Seq<char>|
                #![trigger final(self).shares_of(p2, t2)]
                !(p2 == p@ && t2 == t@) ==> final(self).shares_of(p2, t2) == old(self).shares_of(
                    p2,
                    t2,
                ),
            forall|p2: Seq<char>, t2: Seq<char>|
                #![trigger final(self).has(p2, t2)]
                !(p2 == p@ && t2 == t@) ==> final(self).has(p2, t2) == old(self).has(p2, t2),
            forall|k: int|
                0 <= k < final(self).entries@.len() ==> old(self).entries@.contains(
                    #[trigger] final(self).entries@[k],
                ),
            forall|t2: Seq<char>|
                #[trigger] token_total(final(self).entries@, t2) == token_total(old(self).entries@, t2)
                    - if t2 == t@ {
                    old(self).shares_of(p@, t@) as int
                } else {
                    0
                },
    {
        let ghost before = *self;
        if let Some(i) = self.find(p, t) {
            self.entries.remove(i);
            proof {
                before.lemma_entry_at(i as int);
                assert forall|t2: Seq<char>| #[trigger] token_total(self.entries@, t2) == token_total(before.entries@, t2)
                    - if t2 == t@ { before.shares_of(p@, t@) as int } else { 0 } by {
                    lemma_token_total_remove(before.entries@, i as int, t2);
                }
                self.lemma_removed(before, i as int);
                assert forall|k: int| 0 <= k < self.entries@.len() implies before.entries@.contains(
                    #[trigger] self.entries@[k],
                ) by {
                    let k0 = if k < i { k } else { k + 1 };
                    assert(before.entries@[k0] == self.entries@[k]);
                }
            }
        }
    }

    /// What removing the entry at `i` does to the ledger.
    proof fn lemma_removed(self, before: ShareLedger, i: int)
        requires
            before.wf(),
            0 <= i < before.entries@.len(),
            self.entries@ == before.entries@.remove(i),
        ensures
            self.wf(),
            !self.has(before.entries@[i].participant@, before.entries@[i].token@),
            forall|p2: Seq<char>, t2: Seq<char>|
                #![trigger self.shares_of(p2, t2)]
                !keyed(before.entries@[i], p2, t2) ==> self.shares_of(p2, t2) == before.shares_of(
                    p2,
                    t2,
                ),
            forall|p2: Seq<char>, t2: Seq<char>|
                #![trigger self.has(p2, t2)]
                !keyed(before.entries@[i], p2, t2) ==> self.has(p2, t2) == before.has(p2, t2),
    {
        let n = self.entries@.len() as int;
        assert forall|j: int| 0 <= j < n implies #[trigger] self.entries@[j] == before.entries@[if j
            < i {
            j
        } else {
            j + 1
        }] by {}
        assert forall|a: int, b: int|
            #![trigger self.entries@[a], self.entries@[b]]
            0 <= a < n && 0 <= b < n && a != b implies !keyed(
                self.entries@[a],
                self.entries@[b].participant@,
                self.entries@[b].token@,
            ) by {
            let a0 = if a < i { a } else { a + 1 };
            let b0 = if b < i { b } else { b + 1 };
            assert(!keyed(
                before.entries@[a0],
                before.entries@[b0].participant@,
                before.entries@[b0].token@,
            ));
        }
        let pi = before.entries@[i].participant@;
        let ti = before.entries@[i].token@;
        if self.has(pi, ti) {
            let j = choose|j: int| 0 <= j < n && #[trigger] keyed(self.entries@[j], pi, ti);
            let j0 = if j < i { j } else { j + 1 };
            assert(!keyed(before.entries@[j0], pi, ti));
        }
        assert forall|p2: Seq<char>, t2: Seq<char>|
            !keyed(before.entries@[i], p2, t2) implies #[trigger] self.has(p2, t2) == before.has(
                p2,
                t2,
            ) by {
            if self.has(p2, t2) {
                let j = choose|j: int| 0 <= j < n && #[trigger] keyed(self.entries@[j], p2, t2);
                let j0 = if j < i { j } else { j + 1 };
                assert(keyed(before.entries@[j0], p2, t2));
            }
            if before.has(p2, t2) {
                let j0 = choose|j: int| 0 <= j < before.entries@.len() && #[trigger] keyed(before.entries@[j], p2, t2);
                let j = if j0 < i { j0 } else { j0 - 1 };
                assert(keyed(self.entries@[j], p2, t2));
            }
        }
        assert forall|p2: Seq<char>, t2: Seq<char>|
            !keyed(before.entries@[i], p2, t2) implies #[trigger] self.shares_of(p2, t2)
            == before.shares_of(p2, t2) by {
            if self.has(p2, t2) {
                let j = choose|j: int| 0 <= j < n && #[trigger] keyed(self.entries@[j], p2, t2);
                let j0 = if j < i { j } else { j + 1 };
                self.lemma_entry_at(j);
                before.lemma_entry_at(j0);
            }
        }
    }


    /// Every entry of participant `p` has its token among the pairs of `l`.
    pub open spec fn lists_every_entry(self, p: Seq<char>, l: Seq<(String, u128)>) -> bool {
        forall|t: Seq<char>| self.has(p, t) ==> exists|k: int| 0 <= k < l.len() && #[trigger] l[k].0@ == t
    }

    /// The entry at index below `i` that pair `x` was read from.
    pub open spec fn listed_from(self, p: Seq<char>, i: int, x: (String, u128)) -> bool {
        exists|j: int|
            0 <= j < i && #[trigger] self.entries@[j].participant@ == p && self.entries@[j].token@
                == x.0@ && self.entries@[j].shares == x.1
    }

    /// The entries of participant `p`, as (token, shares) pairs, in ascending
    /// order of token.
    pub fn list_for_participant(&self, p: &String) -> (r: Vec<(String, u128)>)
        requires
            self.wf(),
        ensures
            forall|k: int|
                0 <= k < r@.len() ==> self.has(p@, #[trigger] r@[k].0@) && r@[k].1
                    == self.shares_of(p@, r@[k].0@),
            self.lists_every_entry(p@, r@),
            sorted_by_token(r@),
            r@.len() == 0 <==> !self.has_any(p@),
    {
        let mut out: Vec<(String, u128)> = Vec::new();
        let mut i: usize = 0;
        while i < self.entries.len()
            invariant
                self.wf(),
                i <= self.entries@.len(),
                forall|k: int| 0 <= k < out@.len() ==> self.listed_from(p@, i as int, #[trigger] out@[k]),
                forall|j: int|
                    0 <= j < i && #[trigger] self.entries@[j].participant@ == p@ ==> exists|k: int|
                        0 <= k < out@.len() && #[trigger] out@[k].0@ == self.entries@[j].token@,
                sorted_by_token(out@),
            decreases self.entries@.len() - i,
        {
            let e = &self.entries[i];
            if e.participant == *p {
                let item = (e.token.clone(), e.shares);
                assert forall|k: int| 0 <= k < out@.len() implies #[trigger] out@[k].0@ != item.0@ by {
                    assert(self.listed_from(p@, i as int, out@[k]));
                    let j = choose|j: int|
                        0 <= j < i && #[trigger] self.entries@[j].participant@ == p@
                            && self.entries@[j].token@ == out@[k].0@ && self.entries@[j].shares
                            == out@[k].1;
                    assert(!keyed(self.entries@[j], self.entries@[i as int].participant@, self.entries@[i as int].token@));
                }
                let ghost prev = out@;
                insert_sorted(&mut out, item);
                proof {
                    assert forall|k: int| 0 <= k < out@.len() implies self.listed_from(p@, i + 1, #[trigger] out@[k]) by {
                        assert(out@.contains(out@[k]));
                        if out@[k] == item {
                            assert(self.entries@[i as int].participant@ == p@);
                        } else {
                            let k0 = choose|k0: int| 0 <= k0 < prev.len() && prev[k0] == out@[k];
                            assert(self.listed_from(p@, i as int, prev[k0]));
                        }
                    }
                    assert forall|j: int|
                        0 <= j < i + 1 && #[trigger] self.entries@[j].participant@ == p@ implies exists|k: int|
                            0 <= k < out@.len() && #[trigger] out@[k].0@ == self.entries@[j].token@ by {
                        if j == i {
                            assert(out@.contains(item));
                        } else {
                            let k0 = choose|k: int| 0 <= k < prev.len() && #[trigger] prev[k].0@ == self.entries@[j].token@;
                            assert(prev.contains(prev[k0]));
                            assert(out@.contains(prev[k0]));
                        }
                    }
                }
            } else {
                proof {
                    assert forall|k: int| 0 <= k < out@.len() implies self.listed_from(p@, i + 1, #[trigger] out@[k]) by {
                        assert(self.listed_from(p@, i as int, out@[k]));
                    }
                }
            }
            i = i + 1;
        }
        proof {
            assert forall|k: int|
                0 <= k < out@.len() implies self.has(p@, #[trigger] out@[k].0@) && out@[k].1
                    == self.shares_of(p@, out@[k].0@) by {
                assert(self.listed_from(p@, self.entries@.len() as int, out@[k]));
                let j = choose|j: int|
                    0 <= j < self.entries@.len() && #[trigger] self.entries@[j].participant@ == p@
                        && self.entries@[j].token@ == out@[k].0@ && self.entries@[j].shares
                        == out@[k].1;
                self.lemma_entry_at(j);
            }
            assert forall|t: Seq<char>|
                self.has(p@, t) implies exists|k: int| 0 <= k < out@.len() && #[trigger] out@[k].0@ == t by {
                let j = choose|j: int| 0 <= j < self.entries@.len() && #[trigger] keyed(self.entries@[j], p@, t);
                assert(self.entries@[j].participant@ == p@);
            }
            if self.has_any(p@) {
                let j = choose|j: int| 0 <= j < self.entries@.len() && #[trigger] self.entries@[j].participant@ == p@;
                assert(keyed(self.entries@[j], p@, self.entries@[j].token@));
            }
            if out@.len() > 0 {
                assert(self.listed_from(p@, self.entries@.len() as int, out@[0]));
            }
        }
        out
    }
}

} // verus!

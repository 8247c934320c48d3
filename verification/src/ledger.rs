use vstd::prelude::*;

use crate::error::EscrowError;
use crate::state::Authority;

verus! {

/// One holding account of the token ledger. Only `owner` may authorize an
/// outgoing transfer; `mint` is the asset type the account holds.
#[derive(Clone, Copy, Debug, PartialEq, Eq, Structural)]
pub struct TokenAccount {
    pub owner: Authority,
    pub mint: u64,
    pub balance: u64,
}

/// Reference naming one holding account. The ledger keeps at most one
/// account per (owner, asset type) pair, so the pair identifies the account.
#[derive(Clone, Copy, Debug, PartialEq, Eq, Structural)]
pub struct AccountRef {
    pub owner: Authority,
    pub mint: u64,
}

impl TokenAccount {
    /// The key under which this account is addressed.
    pub open spec fn key(self) -> AccountRef {
        AccountRef { owner: self.owner, mint: self.mint }
    }
}

/// Contribution of one account to the circulating supply of `mint`.
pub open spec fn share_of(a: TokenAccount, mint: u64) -> int {
    if a.mint == mint {
        a.balance as int
    } else {
        0
    }
}

/// Total balance of asset `mint` over a sequence of accounts. Settle and
/// cancel are proved to leave this unchanged for every asset: the protocol
/// neither mints nor burns.
pub open spec fn total_in(s: Seq<TokenAccount>, mint: u64) -> int
    decreases s.len(),
{
    if s.len() == 0 {
        0
    } else {
        total_in(s.drop_last(), mint) + share_of(s.last(), mint)
    }
}

/// Whether an account with key `r` exists.
pub open spec fn has_acc(s: Seq<TokenAccount>, r: AccountRef) -> bool {
    exists|i: int| 0 <= i < s.len() && s[i].key() == r
}

/// Index of the account with key `r`; meaningful under [`unique_keys`].
pub open spec fn acc_idx(s: Seq<TokenAccount>, r: AccountRef) -> int {
    choose|i: int| 0 <= i < s.len() && s[i].key() == r
}

/// Balance held at `r`; 0 where no such account exists.
pub open spec fn bal(s: Seq<TokenAccount>, r: AccountRef) -> int {
    if has_acc(s, r) {
        s[acc_idx(s, r)].balance as int
    } else {
        0
    }
}

/// No two accounts share an (owner, asset type) key.
pub open spec fn unique_keys(s: Seq<TokenAccount>) -> bool {
    forall|i: int, j: int| 0 <= i < j < s.len() ==> s[i].key() != s[j].key()
}

/// Every asset's circulating supply fits in one 64-bit balance, so a
/// transfer can never overflow the receiving account.
pub open spec fn bounded_supply(s: Seq<TokenAccount>) -> bool {
    forall|m: u64| total_in(s, m) <= u64::MAX
}

/// The supply of every asset is nonnegative.
pub proof fn lemma_total_nonneg(s: Seq<TokenAccount>, m: u64)
    ensures
        0 <= total_in(s, m),
    decreases s.len(),
{
    if s.len() != 0 {
        lemma_total_nonneg(s.drop_last(), m);
    }
}

/// Replacing one account changes each supply by the difference of the old
/// and new contributions.
pub proof fn lemma_total_update(s: Seq<TokenAccount>, i: int, a: TokenAccount, m: u64)
    requires
        0 <= i < s.len(),
    ensures
        total_in(s.update(i, a), m) == total_in(s, m) - share_of(s[i], m) + share_of(a, m),
    decreases s.len(),
{
    let t = s.update(i, a);
    if i == s.len() - 1 {
        assert(t.drop_last() =~= s.drop_last());
        assert(t.last() == a);
    } else {
        assert(t.drop_last() =~= s.drop_last().update(i, a));
        lemma_total_update(s.drop_last(), i, a, m);
        assert(t.last() == s.last());
        assert(s.drop_last()[i] == s[i]);
    }
}

/// Appending an account adds its contribution to each supply.
pub proof fn lemma_total_push(s: Seq<TokenAccount>, a: TokenAccount, m: u64)
    ensures
        total_in(s.push(a), m) == total_in(s, m) + share_of(a, m),
{
    assert(s.push(a).drop_last() =~= s);
    assert(s.push(a).last() == a);
}

/// Removing an account subtracts its contribution from each supply.
pub proof fn lemma_total_remove(s: Seq<TokenAccount>, i: int, m: u64)
    requires
        0 <= i < s.len(),
    ensures
        total_in(s.remove(i), m) == total_in(s, m) - share_of(s[i], m),
    decreases s.len(),
{
    if i == s.len() - 1 {
        assert(s.remove(i) =~= s.drop_last());
    } else {
        assert(s.remove(i).drop_last() =~= s.drop_last().remove(i));
        lemma_total_remove(s.drop_last(), i, m);
        assert(s.remove(i).last() == s.last());
        assert(s.drop_last()[i] == s[i]);
    }
}

/// One account's balance never exceeds its asset's total supply.
pub proof fn lemma_elem_le_total(s: Seq<TokenAccount>, i: int, m: u64)
    requires
        0 <= i < s.len(),
        s[i].mint == m,
    ensures
        s[i].balance as int <= total_in(s, m),
    decreases s.len(),
{
    if i == s.len() - 1 {
        lemma_total_nonneg(s.drop_last(), m);
    } else {
        lemma_elem_le_total(s.drop_last(), i, m);
        assert(s.drop_last()[i] == s[i]);
    }
}

/// Two distinct accounts of one asset together never exceed its supply.
pub proof fn lemma_pair_le_total(s: Seq<TokenAccount>, i: int, j: int, m: u64)
    requires
        0 <= i < s.len(),
        0 <= j < s.len(),
        i != j,
        s[i].mint == m,
        s[j].mint == m,
    ensures
        s[i].balance as int + s[j].balance as int <= total_in(s, m),
    decreases s.len(),
{
    if j == s.len() - 1 {
        lemma_elem_le_total(s.drop_last(), i, m);
        assert(s.drop_last()[i] == s[i]);
    } else if i == s.len() - 1 {
        lemma_elem_le_total(s.drop_last(), j, m);
        assert(s.drop_last()[j] == s[j]);
    } else {
        lemma_pair_le_total(s.drop_last(), i, j, m);
        assert(s.drop_last()[i] == s[i]);
        assert(s.drop_last()[j] == s[j]);
    }
}

/// A prefix's supply never exceeds the whole sequence's supply.
pub proof fn lemma_total_take_le(s: Seq<TokenAccount>, k: int, m: u64)
    requires
        0 <= k <= s.len(),
    ensures
        total_in(s.take(k), m) <= total_in(s, m),
    decreases s.len(),
{
    if k == s.len() {
        assert(s.take(k) =~= s);
    } else {
        assert(s.take(k) =~= s.drop_last().take(k));
        lemma_total_take_le(s.drop_last(), k, m);
    }
}

/// Extending a prefix by one account adds that account's contribution.
pub proof fn lemma_total_take_succ(s: Seq<TokenAccount>, k: int, m: u64)
    requires
        0 <= k < s.len(),
    ensures
        total_in(s.take(k + 1), m) == total_in(s.take(k), m) + share_of(s[k], m),
{
    assert(s.take(k + 1).drop_last() =~= s.take(k));
    assert(s.take(k + 1).last() == s[k]);
}

/// Under unique keys, an index holding key `r` is the account of `r`.
pub proof fn lemma_acc_at(s: Seq<TokenAccount>, r: AccountRef, i: int)
    requires
        unique_keys(s),
        0 <= i < s.len(),
        s[i].key() == r,
    ensures
        has_acc(s, r),
        acc_idx(s, r) == i,
        bal(s, r) == s[i].balance as int,
{
    assert(has_acc(s, r));
    let j = acc_idx(s, r);
    assert(0 <= j < s.len() && s[j].key() == r);
    if j != i {
        assert(s[i].key() != s[j].key());
        assert(false);
    }
}

/// Effect of replacing one account's balance (key unchanged) on existence
/// and on every account's balance.
pub proof fn lemma_bal_update(s: Seq<TokenAccount>, i: int, a: TokenAccount)
    requires
        unique_keys(s),
        0 <= i < s.len(),
        a.key() == s[i].key(),
    ensures
        unique_keys(s.update(i, a)),
        forall|q: AccountRef| has_acc(s.update(i, a), q) == has_acc(s, q),
        forall|q: AccountRef|
            #[trigger] bal(s.update(i, a), q) == if q == s[i].key() {
                a.balance as int
            } else {
                bal(s, q)
            },
{
    let t = s.update(i, a);
    assert forall|x: int, y: int| 0 <= x < y < t.len() implies t[x].key() != t[y].key() by {
        assert(s[x].key() != s[y].key());
    }
    assert(unique_keys(t));
    assert forall|q: AccountRef| has_acc(t, q) == has_acc(s, q) by {
        if has_acc(s, q) {
            let w = choose|w: int| 0 <= w < s.len() && s[w].key() == q;
            assert(t[w].key() == q);
            assert(has_acc(t, q));
        }
        if has_acc(t, q) {
            let w = choose|w: int| 0 <= w < t.len() && t[w].key() == q;
            assert(s[w].key() == q);
            assert(has_acc(s, q));
        }
    }
    assert forall|q: AccountRef|
        #[trigger] bal(t, q) == if q == s[i].key() {
            a.balance as int
        } else {
            bal(s, q)
        } by {
        if q == s[i].key() {
            lemma_acc_at(t, q, i);
        } else if has_acc(s, q) {
            let w = choose|w: int| 0 <= w < s.len() && s[w].key() == q;
            assert(w != i);
            lemma_acc_at(s, q, w);
            lemma_acc_at(t, q, w);
        }
    }
}

/// Effect of appending a fresh account on existence and balances.
pub proof fn lemma_bal_push(s: Seq<TokenAccount>, a: TokenAccount)
    requires
        unique_keys(s),
        !has_acc(s, a.key()),
    ensures
        unique_keys(s.push(a)),
        forall|q: AccountRef|
            #[trigger] has_acc(s.push(a), q) == (has_acc(s, q) || q == a.key()),
        forall|q: AccountRef|
            #[trigger] bal(s.push(a), q) == if q == a.key() {
                a.balance as int
            } else {
                bal(s, q)
            },
{
    let t = s.push(a);
    let n = s.len() as int;
    assert(t[n] == a);
    assert forall|x: int, y: int| 0 <= x < y < t.len() implies t[x].key() != t[y].key() by {
        if y == n {
            assert(t[x] == s[x]);
            if s[x].key() == a.key() {
                assert(has_acc(s, a.key()));
            }
        } else {
            assert(s[x].key() != s[y].key());
        }
    }
    assert(unique_keys(t));
    assert forall|q: AccountRef| #[trigger] has_acc(t, q) == (has_acc(s, q) || q == a.key()) by {
        if has_acc(s, q) {
            let w = choose|w: int| 0 <= w < s.len() && s[w].key() == q;
            assert(t[w].key() == q);
            assert(has_acc(t, q));
        }
        if q == a.key() {
            assert(t[n].key() == q);
            assert(has_acc(t, q));
        }
        if has_acc(t, q) && q != a.key() {
            let w = choose|w: int| 0 <= w < t.len() && t[w].key() == q;
            assert(w != n);
            assert(s[w].key() == q);
            assert(has_acc(s, q));
        }
    }
    assert forall|q: AccountRef|
        #[trigger] bal(t, q) == if q == a.key() {
            a.balance as int
        } else {
            bal(s, q)
        } by {
        if q == a.key() {
            lemma_acc_at(t, q, n);
        } else if has_acc(s, q) {
            let w = choose|w: int| 0 <= w < s.len() && s[w].key() == q;
            lemma_acc_at(s, q, w);
            assert(t[w].key() == q);
            lemma_acc_at(t, q, w);
        }
    }
}

/// Effect of removing one account on existence and balances.
pub proof fn lemma_bal_remove(s: Seq<TokenAccount>, i: int)
    requires
        unique_keys(s),
        0 <= i < s.len(),
    ensures
        unique_keys(s.remove(i)),
        forall|q: AccountRef|
            #[trigger] has_acc(s.remove(i), q) == (has_acc(s, q) && q != s[i].key()),
        forall|q: AccountRef|
            #[trigger] bal(s.remove(i), q) == if q == s[i].key() {
                0
            } else {
                bal(s, q)
            },
{
    let t = s.remove(i);
    assert forall|k: int| 0 <= k < t.len() implies #[trigger] t[k] == (if k < i {
        s[k]
    } else {
        s[k + 1]
    }) by {}
    assert forall|x: int, y: int| 0 <= x < y < t.len() implies t[x].key() != t[y].key() by {
        let sx: int = if x < i { x } else { x + 1 };
        let sy: int = if y < i { y } else { y + 1 };
        assert(t[x] == s[sx]);
        assert(t[y] == s[sy]);
        assert(s[sx].key() != s[sy].key());
    }
    assert(unique_keys(t));
    assert forall|q: AccountRef| #[trigger] has_acc(t, q) == (has_acc(s, q) && q != s[i].key())
        by {
        if has_acc(t, q) {
            let w = choose|w: int| 0 <= w < t.len() && t[w].key() == q;
            let sw: int = if w < i { w } else { w + 1 };
            assert(t[w] == s[sw]);
            assert(s[sw].key() == q);
            assert(has_acc(s, q));
            if q == s[i].key() {
                assert(sw != i);
                assert(s[sw].key() != s[i].key());
                assert(false);
            }
        }
        if has_acc(s, q) && q != s[i].key() {
            let w = choose|w: int| 0 <= w < s.len() && s[w].key() == q;
            assert(w != i);
            let tw: int = if w < i { w } else { w - 1 };
            assert(t[tw] == s[w]);
            assert(has_acc(t, q));
        }
    }
    assert forall|q: AccountRef|
        #[trigger] bal(t, q) == if q == s[i].key() {
            0
        } else {
            bal(s, q)
        } by {
        if q == s[i].key() {
            assert(!has_acc(t, q));
        } else if has_acc(s, q) {
            let w = choose|w: int| 0 <= w < s.len() && s[w].key() == q;
            lemma_acc_at(s, q, w);
            let tw: int = if w < i { w } else { w - 1 };
            assert(t[tw] == s[w]);
            lemma_acc_at(t, q, tw);
        }
    }
}

/// The token ledger: the external asset-transfer collaborator, modelled as a
/// keyed set of holding accounts. The escrow engine consumes it through
/// `provision_holding_account`, `transfer` and `close_account`.
pub struct Ledger {
    accounts: Vec<TokenAccount>,
}

impl View for Ledger {
    type V = Seq<TokenAccount>;

    closed spec fn view(&self) -> Seq<TokenAccount> {
        self.accounts@
    }
}

/// Outcome of a transfer, checked in this order: asset types first, then
/// authority, then account existence, then balance sufficiency.
pub open spec fn transfer_check(
    s: Seq<TokenAccount>,
    from: AccountRef,
    to: AccountRef,
    authority: Authority,
    amount: u64,
    asset_type: u64,
) -> Result<(), EscrowError> {
    if from.mint != asset_type || to.mint != asset_type {
        Err(EscrowError::AssetTypeMismatch)
    } else if authority != from.owner {
        Err(EscrowError::Unauthorized)
    } else if !has_acc(s, from) || !has_acc(s, to) {
        Err(EscrowError::NotFound)
    } else if bal(s, from) < amount {
        Err(EscrowError::InsufficientFunds)
    } else {
        Ok(())
    }
}

/// Outcome of closing an account: only its owner may close it, it must
/// exist, and it must hold nothing.
pub open spec fn close_check(
    s: Seq<TokenAccount>,
    account: AccountRef,
    authority: Authority,
) -> Result<(), EscrowError> {
    if authority != account.owner {
        Err(EscrowError::Unauthorized)
    } else if !has_acc(s, account) {
        Err(EscrowError::NotFound)
    } else if bal(s, account) != 0 {
        Err(EscrowError::NonZeroBalance)
    } else {
        Ok(())
    }
}

impl Ledger {
    /// Well-formed: keys unique, every supply within one 64-bit balance.
    pub open spec fn wf(self) -> bool {
        unique_keys(self@) && bounded_supply(self@)
    }

    /// An empty ledger.
    pub fn new() -> (l: Ledger)
        ensures
            l.wf(),
            l@.len() == 0,
    {
        let l = Ledger { accounts: Vec::new() };
        proof {
            assert forall|m: u64| total_in(l@, m) <= u64::MAX by {
                assert(total_in(l@, m) == 0);
            }
        }
        l
    }

    /// Index of the account with key `r`, if one exists.
    fn find_index(&self, r: AccountRef) -> (idx: Option<usize>)
        ensures
            match idx {
                Some(i) => i < self@.len() && self@[i as int].key() == r,
                None => !has_acc(self@, r),
            },
    {
        let n = self.accounts.len();
        let mut k: usize = 0;
        while k < n
            invariant
                n == self.accounts.len(),
                k <= n,
                forall|j: int| 0 <= j < k ==> self@[j].key() != r,
            decreases n - k,
        {
            let a = self.accounts[k];
            if a.owner == r.owner && a.mint == r.mint {
                return Some(k);
            }
            k += 1;
        }
        None
    }

    /// Whether the ledger holds an account with key `account`.
    pub fn has_account(&self, account: AccountRef) -> (b: bool)
        ensures
            b == has_acc(self@, account),
    {
        match self.find_index(account) {
            Some(i) => {
                proof {
                    assert(self@[i as int].key() == account);
                }
                true
            },
            None => false,
        }
    }

    /// Balance held at `account`, 0 where no such account exists.
    pub fn balance_of(&self, account: AccountRef) -> (b: u64)
        requires
            self.wf(),
        ensures
            b as int == bal(self@, account),
    {
        match self.find_index(account) {
            Some(i) => {
                proof {
                    lemma_acc_at(self@, account, i as int);
                }
                self.accounts[i].balance
            },
            None => 0,
        }
    }

    /// Idempotent holding-account provisioning: creates an empty account for
    /// (owner, asset type) if none exists, and returns its reference. No
    /// balance changes either way.
    pub fn provision_holding_account(&mut self, owner: Authority, mint: u64) -> (r: AccountRef)
        requires
            old(self).wf(),
        ensures
            final(self).wf(),
            r == (AccountRef { owner, mint }),
            has_acc(final(self)@, r),
            forall|q: AccountRef|
                #[trigger] has_acc(final(self)@, q) == (has_acc(old(self)@, q) || q == r),
            forall|q: AccountRef| #[trigger] bal(final(self)@, q) == bal(old(self)@, q),
            forall|m: u64| #[trigger] total_in(final(self)@, m) == total_in(old(self)@, m),
    {
        let r = AccountRef { owner, mint };
        match self.find_index(r) {
            Some(i) => {
                proof {
                    lemma_acc_at(self@, r, i as int);
                }
                r
            },
            None => {
                let a = TokenAccount { owner, mint, balance: 0 };
                proof {
                    lemma_bal_push(self@, a);
                    assert forall|m: u64|
                        #[trigger] total_in(self@.push(a), m) == total_in(self@, m) by {
                        lemma_total_push(self@, a, m);
                    }
                }
                self.accounts.push(a);
                r
            },
        }
    }

    /// Issuer action standing outside the escrow protocol: endow an existing
    /// holding account with freshly issued units. The issue must keep the
    /// asset's circulating supply within one 64-bit balance.
    pub fn mint_to(&mut self, owner: Authority, mint: u64, amount: u64)
        requires
            old(self).wf(),
            has_acc(old(self)@, AccountRef { owner, mint }),
            total_in(old(self)@, mint) + amount <= u64::MAX,
        ensures
            final(self).wf(),
            forall|q: AccountRef| has_acc(final(self)@, q) == has_acc(old(self)@, q),
            forall|q: AccountRef|
                #[trigger] bal(final(self)@, q) == bal(old(self)@, q) + if q == (AccountRef {
                    owner,
                    mint,
                }) {
                    amount as int
                } else {
                    0
                },
            forall|m: u64|
                #[trigger] total_in(final(self)@, m) == total_in(old(self)@, m) + if m == mint {
                    amount as int
                } else {
                    0
                },
    {
        let r = AccountRef { owner, mint };
        let idx = self.find_index(r);
        let i = match idx {
            Some(i) => i,
            None => {
                proof {
                    assert(false);
                }
                0
            },
        };
        proof {
            lemma_acc_at(self@, r, i as int);
            lemma_elem_le_total(self@, i as int, mint);
        }
        let a = self.accounts[i];
        let updated = TokenAccount { owner: a.owner, mint: a.mint, balance: a.balance + amount };
        proof {
            lemma_bal_update(self@, i as int, updated);
            assert forall|m: u64|
                #[trigger] total_in(self@.update(i as int, updated), m) == total_in(self@, m)
                    + if m == mint {
                    amount as int
                } else {
                    0
                } by {
                lemma_total_update(self@, i as int, updated, m);
            }
        }
        self.accounts[i] = updated;
    }

    /// Ledger-checked transfer of `amount` units of `asset_type` between two
    /// holding accounts, authorized by the source account's owner. All
    /// checks precede any mutation; on any error the ledger is unchanged.
    pub fn transfer(
        &mut self,
        from: AccountRef,
        to: AccountRef,
        authority: Authority,
        amount: u64,
        asset_type: u64,
    ) -> (r: Result<(), EscrowError>)
        requires
            old(self).wf(),
        ensures
            final(self).wf(),
            r == transfer_check(old(self)@, from, to, authority, amount, asset_type),
            r is Err ==> final(self)@ == old(self)@,
            r is Ok ==> forall|q: AccountRef|
                has_acc(final(self)@, q) == has_acc(old(self)@, q),
            r is Ok ==> forall|q: AccountRef|
                #[trigger] bal(final(self)@, q) == bal(old(self)@, q) + (if q == to {
                    amount as int
                } else {
                    0
                }) - (if q == from {
                    amount as int
                } else {
                    0
                }),
            forall|m: u64| #[trigger] total_in(final(self)@, m) == total_in(old(self)@, m),
    {
        if from.mint != asset_type || to.mint != asset_type {
            return Err(EscrowError::AssetTypeMismatch);
        }
        if authority != from.owner {
            return Err(EscrowError::Unauthorized);
        }
        let fidx = self.find_index(from);
        let tidx = self.find_index(to);
        let (fi, ti) = match (fidx, tidx) {
            (Some(fi), Some(ti)) => (fi, ti),
            _ => {
                return Err(EscrowError::NotFound);
            },
        };
        proof {
            lemma_acc_at(self@, from, fi as int);
            lemma_acc_at(self@, to, ti as int);
        }
        let fa = self.accounts[fi];
        if fa.balance < amount {
            return Err(EscrowError::InsufficientFunds);
        }
        if fi == ti {
            proof {
                assert(from == to);
            }
            return Ok(());
        }
        let ta = self.accounts[ti];
        proof {
            lemma_pair_le_total(self@, fi as int, ti as int, asset_type);
        }
        let fa2 = TokenAccount { owner: fa.owner, mint: fa.mint, balance: fa.balance - amount };
        let ta2 = TokenAccount { owner: ta.owner, mint: ta.mint, balance: ta.balance + amount };
        let ghost s0 = self@;
        proof {
            lemma_bal_update(s0, fi as int, fa2);
            assert forall|m: u64|
                #[trigger] total_in(s0.update(fi as int, fa2), m) == total_in(s0, m) - (if m
                    == asset_type {
                    amount as int
                } else {
                    0
                }) by {
                lemma_total_update(s0, fi as int, fa2, m);
            }
        }
        self.accounts[fi] = fa2;
        let ghost s1 = self@;
        proof {
            assert(s1 == s0.update(fi as int, fa2));
            assert(s1[ti as int] == ta);
            lemma_acc_at(s1, to, ti as int);
            lemma_bal_update(s1, ti as int, ta2);
            assert forall|m: u64|
                #[trigger] total_in(s1.update(ti as int, ta2), m) == total_in(s1, m) + (if m
                    == asset_type {
                    amount as int
                } else {
                    0
                }) by {
                lemma_total_update(s1, ti as int, ta2, m);
            }
        }
        self.accounts[ti] = ta2;
        Ok(())
    }

    /// Close an empty holding account, reclaiming its storage. The storage
    /// deposit conceptually returns to `refund_destination`; storage rent
    /// lies outside the asset balances this model tracks, so the parameter
    /// does not appear in the balance clauses.
    #[allow(unused_variables)]
    pub fn close_account(
        &mut self,
        account: AccountRef,
        authority: Authority,
        refund_destination: Authority,
    ) -> (r: Result<(), EscrowError>)
        requires
            old(self).wf(),
        ensures
            final(self).wf(),
            r == close_check(old(self)@, account, authority),
            r is Err ==> final(self)@ == old(self)@,
            r is Ok ==> forall|q: AccountRef|
                #[trigger] has_acc(final(self)@, q) == (has_acc(old(self)@, q) && q != account),
            r is Ok ==> forall|q: AccountRef| #[trigger] bal(final(self)@, q) == bal(old(self)@, q),
            forall|m: u64| #[trigger] total_in(final(self)@, m) == total_in(old(self)@, m),
    {
        if authority != account.owner {
            return Err(EscrowError::Unauthorized);
        }
        let idx = self.find_index(account);
        let i = match idx {
            Some(i) => i,
            None => {
                return Err(EscrowError::NotFound);
            },
        };
        proof {
            lemma_acc_at(self@, account, i as int);
        }
        let a = self.accounts[i];
        if a.balance != 0 {
            return Err(EscrowError::NonZeroBalance);
        }
        proof {
            lemma_bal_remove(self@, i as int);
            assert forall|m: u64|
                #[trigger] total_in(self@.remove(i as int), m) == total_in(self@, m) by {
                lemma_total_remove(self@, i as int, m);
            }
        }
        self.accounts.remove(i);
        Ok(())
    }

    /// Total circulating supply of `mint` over all holding accounts.
    pub fn total_supply(&self, mint: u64) -> (t: u64)
        requires
            self.wf(),
        ensures
            t as int == total_in(self@, mint),
    {
        let n = self.accounts.len();
        let mut k: usize = 0;
        let mut acc: u64 = 0;
        proof {
            assert(self@.take(0) =~= Seq::<TokenAccount>::empty());
        }
        while k < n
            invariant
                self.wf(),
                n == self.accounts.len(),
                k <= n,
                acc as int == total_in(self@.take(k as int), mint),
            decreases n - k,
        {
            let a = self.accounts[k];
            proof {
                lemma_total_take_succ(self@, k as int, mint);
                lemma_total_take_le(self@, k as int + 1, mint);
                lemma_total_nonneg(self@.take(k as int + 1), mint);
            }
            if a.mint == mint {
                acc = acc + a.balance;
            }
            k += 1;
        }
        proof {
            assert(self@.take(n as int) =~= self@);
        }
        acc
    }
}

} // verus!

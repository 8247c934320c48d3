use vstd::prelude::*;

use crate::error::EscrowError;
use crate::ledger::AccountRef;
use crate::ledger::Ledger;
use crate::ledger::TokenAccount;
use crate::ledger::bal;
use crate::ledger::bounded_supply;
use crate::ledger::has_acc;
use crate::ledger::total_in;
use crate::ledger::unique_keys;
use crate::state::Authority;
use crate::state::CANONICAL_BUMP;
use crate::state::EscrowAddress;
use crate::state::EscrowState;
use crate::store::RecordStore;
use crate::store::has_record;
use crate::store::record_at;
use crate::store::unique_addresses;

verus! {

/// Key of the holding account of key-backed identity `owner` for asset
/// `mint`.
pub open spec fn holding_of(owner: u64, mint: u64) -> AccountRef {
    AccountRef { owner: Authority::Key(owner), mint }
}

/// Key of the vault of the escrow at `addr`, holding asset `mint`. Its
/// owner is the derived authority, so no external key can move its funds.
pub open spec fn vault_of(addr: EscrowAddress, mint: u64) -> AccountRef {
    AccountRef { owner: Authority::Derived(addr), mint }
}

/// The escrow lifecycle engine: the record store, and custody of the vaults
/// on the token ledger. All vault movement happens inside the three
/// lifecycle operations under the derived authority; every operation either
/// completes all its steps or returns an error having changed nothing.
pub struct Escrow {
    store: RecordStore,
    ledger: Ledger,
}

impl Escrow {
    /// The active escrow records.
    pub closed spec fn records(self) -> Seq<EscrowState> {
        self.store@
    }

    /// The holding accounts of the underlying token ledger.
    pub closed spec fn accounts(self) -> Seq<TokenAccount> {
        self.ledger@
    }

    /// Well-formedness, preserved by every operation:
    /// - the store and the ledger are each well-formed;
    /// - a record exists iff its vault exists: every record's vault is a
    ///   ledger account owned by the record's derived authority and holding
    ///   the record's offered asset type, and every derived-authority
    ///   account is the vault of an active record;
    /// - every record carries the canonical derivation bump and sits at the
    ///   address derived from its own maker and seed.
    pub open spec fn wf(self) -> bool {
        &&& unique_addresses(self.records())
        &&& unique_keys(self.accounts())
        &&& bounded_supply(self.accounts())
        &&& forall|a: EscrowAddress| #[trigger] has_record(self.records(), a) ==> {
            &&& has_acc(self.accounts(), vault_of(a, record_at(self.records(), a).mint_a))
            &&& record_at(self.records(), a).escrow_bump == CANONICAL_BUMP
            &&& record_at(self.records(), a).address() == a
        }
        &&& forall|a: EscrowAddress, m: u64| #[trigger] has_acc(self.accounts(), vault_of(a, m))
            ==> has_record(self.records(), a) && m == record_at(self.records(), a).mint_a
    }

    /// Outcome of open, decided before any step runs: the derived address
    /// must be free, and the maker must hold the deposit.
    pub open spec fn open_check(
        self,
        maker: u64,
        seed: u64,
        mint_a: u64,
        deposit_amount: u64,
    ) -> Result<EscrowAddress, EscrowError> {
        let addr = EscrowAddress { maker, seed };
        if has_record(self.records(), addr) {
            Err(EscrowError::AlreadyExists)
        } else if bal(self.accounts(), holding_of(maker, mint_a)) < deposit_amount {
            Err(EscrowError::InsufficientFunds)
        } else {
            Ok(addr)
        }
    }

    /// Outcome of settle, decided before any transfer: the record must
    /// exist, the supplied asset types must match it exactly (the maker is
    /// part of the address and so matches by construction), and the taker
    /// must hold at least the required amount of the demanded asset.
    pub open spec fn settle_check(
        self,
        taker: u64,
        addr: EscrowAddress,
        mint_a: u64,
        mint_b: u64,
    ) -> Result<(), EscrowError> {
        if !has_record(self.records(), addr) {
            Err(EscrowError::NotFound)
        } else if record_at(self.records(), addr).mint_a != mint_a || record_at(
            self.records(),
            addr,
        ).mint_b != mint_b {
            Err(EscrowError::RecordMismatch)
        } else if bal(self.accounts(), holding_of(taker, mint_b)) < record_at(
            self.records(),
            addr,
        ).amount_required {
            Err(EscrowError::EscrowInsufficientFunds)
        } else {
            Ok(())
        }
    }

    /// Outcome of cancel: the record must exist and the caller must be the
    /// record's maker.
    pub open spec fn cancel_check(self, caller: u64, addr: EscrowAddress) -> Result<
        (),
        EscrowError,
    > {
        if !has_record(self.records(), addr) {
            Err(EscrowError::NotFound)
        } else if caller != record_at(self.records(), addr).maker {
            Err(EscrowError::Unauthorized)
        } else {
            Ok(())
        }
    }

    /// A fresh engine: no records, no holding accounts.
    pub fn new() -> (e: Escrow)
        ensures
            e.wf(),
            e.records().len() == 0,
            e.accounts().len() == 0,
    {
        Escrow { store: RecordStore::new(), ledger: Ledger::new() }
    }

    /// Whether an active escrow record occupies `addr`.
    pub fn has_escrow(&self, addr: EscrowAddress) -> (b: bool)
        ensures
            b == has_record(self.records(), addr),
    {
        self.store.contains(addr)
    }

    /// Read the record at `addr`; `NotFound` when absent.
    pub fn read_escrow(&self, addr: EscrowAddress) -> (r: Result<EscrowState, EscrowError>)
        requires
            self.wf(),
        ensures
            r == if has_record(self.records(), addr) {
                Ok::<EscrowState, EscrowError>(record_at(self.records(), addr))
            } else {
                Err::<EscrowState, EscrowError>(EscrowError::NotFound)
            },
    {
        self.store.read(addr)
    }

    /// Whether the vault of the escrow at `addr` for asset `mint` exists.
    pub fn has_vault(&self, addr: EscrowAddress, mint: u64) -> (b: bool)
        ensures
            b == has_acc(self.accounts(), vault_of(addr, mint)),
    {
        self.ledger.has_account(AccountRef { owner: Authority::Derived(addr), mint })
    }

    /// Balance of the holding account of identity `owner` for asset `mint`;
    /// 0 where no such account exists.
    pub fn balance_of(&self, owner: u64, mint: u64) -> (b: u64)
        requires
            self.wf(),
        ensures
            b as int == bal(self.accounts(), holding_of(owner, mint)),
    {
        self.ledger.balance_of(AccountRef { owner: Authority::Key(owner), mint })
    }

    /// Balance held by the vault of the escrow at `addr` for asset `mint`;
    /// 0 where no such vault exists.
    pub fn vault_balance(&self, addr: EscrowAddress, mint: u64) -> (b: u64)
        requires
            self.wf(),
        ensures
            b as int == bal(self.accounts(), vault_of(addr, mint)),
    {
        self.ledger.balance_of(AccountRef { owner: Authority::Derived(addr), mint })
    }

    /// Total circulating supply of asset `mint` over all holding accounts,
    /// vaults included.
    pub fn total_supply(&self, mint: u64) -> (t: u64)
        requires
            self.wf(),
        ensures
            t as int == total_in(self.accounts(), mint),
    {
        self.ledger.total_supply(mint)
    }

    /// Issuer action standing outside the escrow protocol: endow identity
    /// `owner` with `amount` freshly issued units of `mint`, provisioning
    /// the holding account if needed. The issue must keep the asset's
    /// circulating supply within one 64-bit balance.
    pub fn mint_to(&mut self, owner: u64, mint: u64, amount: u64)
        requires
            old(self).wf(),
            total_in(old(self).accounts(), mint) + amount <= u64::MAX,
        ensures
            final(self).wf(),
            final(self).records() == old(self).records(),
            forall|q: AccountRef|
                #[trigger] has_acc(final(self).accounts(), q) == (has_acc(
                    old(self).accounts(),
                    q,
                ) || q == holding_of(owner, mint)),
            forall|q: AccountRef|
                #[trigger] bal(final(self).accounts(), q) == bal(old(self).accounts(), q) + if q
                    == holding_of(owner, mint) {
                    amount as int
                } else {
                    0
                },
            forall|m: u64|
                #[trigger] total_in(final(self).accounts(), m) == total_in(
                    old(self).accounts(),
                    m,
                ) + if m == mint {
                    amount as int
                } else {
                    0
                },
    {
        let auth = Authority::Key(owner);
        self.ledger.provision_holding_account(auth, mint);
        self.ledger.mint_to(auth, mint, amount);
        proof {
            assert forall|a: EscrowAddress, m: u64|
                #[trigger] has_acc(self.accounts(), vault_of(a, m)) implies has_record(
                self.records(),
                a,
            ) && m == record_at(self.records(), a).mint_a by {
                assert(vault_of(a, m) != holding_of(owner, mint));
                assert(has_acc(old(self).accounts(), vault_of(a, m)));
            }
        }
    }

    /// Open: create the record at the derived address, provision the vault
    /// under the derived authority, and deposit `deposit_amount` of `mint_a`
    /// from the maker's holding account — or fail before any step, with
    /// `AlreadyExists` when the seed is already in use by this maker, and
    /// `InsufficientFunds` when the maker's balance is short of the deposit.
    pub fn initialize(
        &mut self,
        maker: u64,
        seed: u64,
        mint_a: u64,
        mint_b: u64,
        amount_required: u64,
        deposit_amount: u64,
    ) -> (r: Result<EscrowAddress, EscrowError>)
        requires
            old(self).wf(),
        ensures
            final(self).wf(),
            r == old(self).open_check(maker, seed, mint_a, deposit_amount),
            r is Err ==> final(self).records() == old(self).records() && final(self).accounts()
                == old(self).accounts(),
            r is Ok ==> {
                let addr = EscrowAddress { maker, seed };
                &&& record_at(final(self).records(), addr) == (EscrowState {
                    seed,
                    maker,
                    mint_a,
                    mint_b,
                    amount_required,
                    escrow_bump: CANONICAL_BUMP,
                })
                &&& forall|a: EscrowAddress|
                    #[trigger] has_record(final(self).records(), a) == (has_record(
                        old(self).records(),
                        a,
                    ) || a == addr)
                &&& forall|a: EscrowAddress|
                    has_record(old(self).records(), a) ==> #[trigger] record_at(
                        final(self).records(),
                        a,
                    ) == record_at(old(self).records(), a)
                &&& bal(final(self).accounts(), vault_of(addr, mint_a)) == deposit_amount
                &&& forall|q: AccountRef|
                    #[trigger] bal(final(self).accounts(), q) == bal(old(self).accounts(), q)
                        + (if q == vault_of(addr, mint_a) {
                        deposit_amount as int
                    } else {
                        0
                    }) - (if q == holding_of(maker, mint_a) {
                        deposit_amount as int
                    } else {
                        0
                    })
                &&& forall|q: AccountRef|
                    #[trigger] has_acc(final(self).accounts(), q) == (has_acc(
                        old(self).accounts(),
                        q,
                    ) || q == holding_of(maker, mint_a) || q == vault_of(addr, mint_a))
                &&& forall|m: u64|
                    #[trigger] total_in(final(self).accounts(), m) == total_in(
                        old(self).accounts(),
                        m,
                    )
            },
    {
        let addr = crate::state::derive_address(maker, seed);
        if self.store.contains(addr) {
            return Err(EscrowError::AlreadyExists);
        }
        let maker_ref = AccountRef { owner: Authority::Key(maker), mint: mint_a };
        let maker_bal = self.ledger.balance_of(maker_ref);
        if maker_bal < deposit_amount {
            return Err(EscrowError::InsufficientFunds);
        }
        let state = EscrowState {
            seed,
            maker,
            mint_a,
            mint_b,
            amount_required,
            escrow_bump: CANONICAL_BUMP,
        };
        let created = self.store.create(state);
        proof {
            assert(created is Ok);
        }
        let vault_ref = AccountRef { owner: Authority::Derived(addr), mint: mint_a };
        proof {
            // No record at `addr`, so no vault of `addr` exists yet for any
            // asset, and the vault provisioned below starts empty.
            if has_acc(self.ledger@, vault_of(addr, mint_a)) {
                assert(has_record(old(self).records(), addr));
            }
        }
        self.ledger.provision_holding_account(Authority::Key(maker), mint_a);
        self.ledger.provision_holding_account(Authority::Derived(addr), mint_a);
        let moved = self.ledger.transfer(
            maker_ref,
            vault_ref,
            Authority::Key(maker),
            deposit_amount,
            mint_a,
        );
        match moved {
            Err(e) => {
                proof {
                    assert(false);
                }
                Err(e)
            },
            Ok(()) => {
                proof {
                    assert forall|a: EscrowAddress| #[trigger] has_record(self.records(), a)
                        implies {
                        &&& has_acc(self.accounts(), vault_of(a, record_at(self.records(), a).mint_a))
                        &&& record_at(self.records(), a).escrow_bump == CANONICAL_BUMP
                        &&& record_at(self.records(), a).address() == a
                    } by {
                        if a != addr {
                            assert(has_record(old(self).records(), a));
                            assert(record_at(self.records(), a) == record_at(
                                old(self).records(),
                                a,
                            ));
                        }
                    }
                    assert forall|a: EscrowAddress, m: u64|
                        #[trigger] has_acc(self.accounts(), vault_of(a, m)) implies has_record(
                        self.records(),
                        a,
                    ) && m == record_at(self.records(), a).mint_a by {
                        if a == addr && m == mint_a {
                        } else {
                            assert(vault_of(a, m) != holding_of(maker, mint_a));
                            assert(vault_of(a, m) != vault_of(addr, mint_a));
                            assert(has_acc(old(self).accounts(), vault_of(a, m)));
                        }
                    }
                }
                Ok(addr)
            },
        }
    }

    /// Settle, invoked by a taker: release the vault's entire balance (which
    /// may differ from `amount_required` by construction of open) to the
    /// taker, move exactly `amount_required` of the demanded asset from the
    /// taker to the maker, close the vault, and delete the record — all
    /// steps or none. Validation precedes every transfer, so a failing
    /// settle leaves the escrow fully intact.
    pub fn exchange(&mut self, taker: u64, addr: EscrowAddress, mint_a: u64, mint_b: u64) -> (r:
        Result<(), EscrowError>)
        requires
            old(self).wf(),
        ensures
            final(self).wf(),
            r == old(self).settle_check(taker, addr, mint_a, mint_b),
            r is Err ==> final(self).records() == old(self).records() && final(self).accounts()
                == old(self).accounts(),
            r is Ok ==> {
                let rec = record_at(old(self).records(), addr);
                let vault_bal = bal(old(self).accounts(), vault_of(addr, mint_a));
                let req = rec.amount_required;
                &&& !has_record(final(self).records(), addr)
                &&& forall|a: EscrowAddress|
                    #[trigger] has_record(final(self).records(), a) == (has_record(
                        old(self).records(),
                        a,
                    ) && a != addr)
                &&& forall|a: EscrowAddress|
                    has_record(old(self).records(), a) && a != addr ==> #[trigger] record_at(
                        final(self).records(),
                        a,
                    ) == record_at(old(self).records(), a)
                &&& !has_acc(final(self).accounts(), vault_of(addr, mint_a))
                &&& forall|q: AccountRef|
                    #[trigger] bal(final(self).accounts(), q) == bal(old(self).accounts(), q)
                        + (if q == holding_of(taker, mint_a) {
                        vault_bal
                    } else {
                        0
                    }) + (if q == holding_of(rec.maker, mint_b) {
                        req as int
                    } else {
                        0
                    }) - (if q == holding_of(taker, mint_b) {
                        req as int
                    } else {
                        0
                    }) - (if q == vault_of(addr, mint_a) {
                        vault_bal
                    } else {
                        0
                    })
                &&& forall|q: AccountRef|
                    #[trigger] has_acc(final(self).accounts(), q) == ((has_acc(
                        old(self).accounts(),
                        q,
                    ) || q == holding_of(taker, mint_a) || q == holding_of(rec.maker, mint_b) || q
                        == holding_of(taker, mint_b)) && q != vault_of(addr, mint_a))
                &&& forall|m: u64|
                    #[trigger] total_in(final(self).accounts(), m) == total_in(
                        old(self).accounts(),
                        m,
                    )
            },
    {
        let rec = match self.store.read(addr) {
            Ok(rec) => rec,
            Err(_) => {
                return Err(EscrowError::NotFound);
            },
        };
        if rec.mint_a != mint_a || rec.mint_b != mint_b {
            return Err(EscrowError::RecordMismatch);
        }
        let taker_b_ref = AccountRef { owner: Authority::Key(taker), mint: mint_b };
        let taker_bal = self.ledger.balance_of(taker_b_ref);
        if taker_bal < rec.amount_required {
            return Err(EscrowError::EscrowInsufficientFunds);
        }
        let vault_ref = AccountRef { owner: Authority::Derived(addr), mint: mint_a };
        let vault_bal = self.ledger.balance_of(vault_ref);
        let taker_a_ref = AccountRef { owner: Authority::Key(taker), mint: mint_a };
        let maker_b_ref = AccountRef { owner: Authority::Key(rec.maker), mint: mint_b };
        self.ledger.provision_holding_account(Authority::Key(taker), mint_a);
        self.ledger.provision_holding_account(Authority::Key(rec.maker), mint_b);
        self.ledger.provision_holding_account(Authority::Key(taker), mint_b);
        let leg_a = self.ledger.transfer(
            vault_ref,
            taker_a_ref,
            Authority::Derived(addr),
            vault_bal,
            mint_a,
        );
        match leg_a {
            Err(e) => {
                proof {
                    assert(false);
                }
                return Err(e);
            },
            Ok(()) => {},
        }
        let leg_b = self.ledger.transfer(
            taker_b_ref,
            maker_b_ref,
            Authority::Key(taker),
            rec.amount_required,
            mint_b,
        );
        match leg_b {
            Err(e) => {
                proof {
                    assert(false);
                }
                return Err(e);
            },
            Ok(()) => {},
        }
        let closed = self.ledger.close_account(
            vault_ref,
            Authority::Derived(addr),
            Authority::Key(rec.maker),
        );
        match closed {
            Err(e) => {
                proof {
                    assert(false);
                }
                return Err(e);
            },
            Ok(()) => {},
        }
        let deleted = self.store.delete(addr);
        proof {
            assert(deleted is Ok);
            assert forall|a: EscrowAddress| #[trigger] has_record(self.records(), a) implies {
                &&& has_acc(self.accounts(), vault_of(a, record_at(self.records(), a).mint_a))
                &&& record_at(self.records(), a).escrow_bump == CANONICAL_BUMP
                &&& record_at(self.records(), a).address() == a
            } by {
                assert(has_record(old(self).records(), a) && a != addr);
                assert(record_at(self.records(), a) == record_at(old(self).records(), a));
                let va = vault_of(a, record_at(old(self).records(), a).mint_a);
                assert(has_acc(old(self).accounts(), va));
                assert(va != vault_of(addr, mint_a));
            }
            assert forall|a: EscrowAddress, m: u64|
                #[trigger] has_acc(self.accounts(), vault_of(a, m)) implies has_record(
                self.records(),
                a,
            ) && m == record_at(self.records(), a).mint_a by {
                let va = vault_of(a, m);
                assert(va != holding_of(taker, mint_a));
                assert(va != holding_of(rec.maker, mint_b));
                assert(va != holding_of(taker, mint_b));
                assert(has_acc(old(self).accounts(), va));
                assert(a != addr);
                assert(record_at(self.records(), a) == record_at(old(self).records(), a));
            }
        }
        Ok(())
    }

    /// Cancel, invoked only by the maker: release the vault's entire balance
    /// back to the maker's holding account, close the vault, and delete the
    /// record — all steps or none. Any other caller fails with
    /// `Unauthorized` and the escrow is left untouched.
    pub fn refund(&mut self, caller: u64, addr: EscrowAddress) -> (r: Result<(), EscrowError>)
        requires
            old(self).wf(),
        ensures
            final(self).wf(),
            r == old(self).cancel_check(caller, addr),
            r is Err ==> final(self).records() == old(self).records() && final(self).accounts()
                == old(self).accounts(),
            r is Ok ==> {
                let rec = record_at(old(self).records(), addr);
                let vault_bal = bal(old(self).accounts(), vault_of(addr, rec.mint_a));
                &&& !has_record(final(self).records(), addr)
                &&& forall|a: EscrowAddress|
                    #[trigger] has_record(final(self).records(), a) == (has_record(
                        old(self).records(),
                        a,
                    ) && a != addr)
                &&& forall|a: EscrowAddress|
                    has_record(old(self).records(), a) && a != addr ==> #[trigger] record_at(
                        final(self).records(),
                        a,
                    ) == record_at(old(self).records(), a)
                &&& !has_acc(final(self).accounts(), vault_of(addr, rec.mint_a))
                &&& forall|q: AccountRef|
                    #[trigger] bal(final(self).accounts(), q) == bal(old(self).accounts(), q)
                        + (if q == holding_of(rec.maker, rec.mint_a) {
                        vault_bal
                    } else {
                        0
                    }) - (if q == vault_of(addr, rec.mint_a) {
                        vault_bal
                    } else {
                        0
                    })
                &&& forall|q: AccountRef|
                    #[trigger] has_acc(final(self).accounts(), q) == ((has_acc(
                        old(self).accounts(),
                        q,
                    ) || q == holding_of(rec.maker, rec.mint_a)) && q != vault_of(
                        addr,
                        rec.mint_a,
                    ))
                &&& forall|m: u64|
                    #[trigger] total_in(final(self).accounts(), m) == total_in(
                        old(self).accounts(),
                        m,
                    )
            },
    {
        let rec = match self.store.read(addr) {
            Ok(rec) => rec,
            Err(_) => {
                return Err(EscrowError::NotFound);
            },
        };
        if caller != rec.maker {
            return Err(EscrowError::Unauthorized);
        }
        let vault_ref = AccountRef { owner: Authority::Derived(addr), mint: rec.mint_a };
        let maker_a_ref = AccountRef { owner: Authority::Key(rec.maker), mint: rec.mint_a };
        let vault_bal = self.ledger.balance_of(vault_ref);
        self.ledger.provision_holding_account(Authority::Key(rec.maker), rec.mint_a);
        let leg = self.ledger.transfer(
            vault_ref,
            maker_a_ref,
            Authority::Derived(addr),
            vault_bal,
            rec.mint_a,
        );
        match leg {
            Err(e) => {
                proof {
                    assert(false);
                }
                return Err(e);
            },
            Ok(()) => {},
        }
        let closed = self.ledger.close_account(
            vault_ref,
            Authority::Derived(addr),
            Authority::Key(rec.maker),
        );
        match closed {
            Err(e) => {
                proof {
                    assert(false);
                }
                return Err(e);
            },
            Ok(()) => {},
        }
        let deleted = self.store.delete(addr);
        proof {
            assert(deleted is Ok);
            assert forall|a: EscrowAddress| #[trigger] has_record(self.records(), a) implies {
                &&& has_acc(self.accounts(), vault_of(a, record_at(self.records(), a).mint_a))
                &&& record_at(self.records(), a).escrow_bump == CANONICAL_BUMP
                &&& record_at(self.records(), a).address() == a
            } by {
                assert(has_record(old(self).records(), a) && a != addr);
                assert(record_at(self.records(), a) == record_at(old(self).records(), a));
                let va = vault_of(a, record_at(old(self).records(), a).mint_a);
                assert(has_acc(old(self).accounts(), va));
                assert(va != vault_of(addr, rec.mint_a));
            }
            assert forall|a: EscrowAddress, m: u64|
                #[trigger] has_acc(self.accounts(), vault_of(a, m)) implies has_record(
                self.records(),
                a,
            ) && m == record_at(self.records(), a).mint_a by {
                let va = vault_of(a, m);
                assert(va != holding_of(rec.maker, rec.mint_a));
                assert(has_acc(old(self).accounts(), va));
                assert(a != addr);
                assert(record_at(self.records(), a) == record_at(old(self).records(), a));
            }
        }
        Ok(())
    }
}

/// Exactly-once terminal transition: where no record occupies `addr` — in
/// particular after a completed settle or cancel, whose contracts remove the
/// record — a further settle or cancel at `addr` is bound by its contract to
/// return `NotFound`, and by the error clauses of `exchange` and `refund` to
/// change nothing.
pub proof fn lemma_terminal_exactly_once(
    s: Escrow,
    taker: u64,
    caller: u64,
    addr: EscrowAddress,
    mint_a: u64,
    mint_b: u64,
)
    requires
        !has_record(s.records(), addr),
    ensures
        s.settle_check(taker, addr, mint_a, mint_b) == Err::<(), EscrowError>(EscrowError::NotFound),
        s.cancel_check(caller, addr) == Err::<(), EscrowError>(EscrowError::NotFound),
{
}

/// Authorization: cancel invoked by any identity other than the stored
/// maker is bound to fail with `Unauthorized`, and by the error clause of
/// `refund` the vault — like everything else — is left untouched.
pub proof fn lemma_cancel_authorization(s: Escrow, caller: u64, addr: EscrowAddress)
    requires
        has_record(s.records(), addr),
        caller != record_at(s.records(), addr).maker,
    ensures
        s.cancel_check(caller, addr) == Err::<(), EscrowError>(EscrowError::Unauthorized),
{
}

/// Insufficiency gate: settle invoked by a taker whose balance of the
/// demanded asset is below `amount_required` is bound to fail with
/// `EscrowInsufficientFunds`, and by the error clause of `exchange` the
/// escrow remains open and unchanged.
pub proof fn lemma_settle_insufficiency_gate(
    s: Escrow,
    taker: u64,
    addr: EscrowAddress,
    mint_a: u64,
    mint_b: u64,
)
    requires
        has_record(s.records(), addr),
        record_at(s.records(), addr).mint_a == mint_a,
        record_at(s.records(), addr).mint_b == mint_b,
        bal(s.accounts(), holding_of(taker, mint_b)) < record_at(
            s.records(),
            addr,
        ).amount_required,
    ensures
        s.settle_check(taker, addr, mint_a, mint_b) == Err::<(), EscrowError>(
            EscrowError::EscrowInsufficientFunds,
        ),
{
}

/// Uniqueness: in a well-formed engine at most one active record exists at
/// any derived address — any two indices of records sharing an address
/// coincide — and by the contract of `initialize`, open on an occupied
/// address fails with `AlreadyExists`.
pub proof fn lemma_active_escrow_unique(s: Escrow, i: int, j: int)
    requires
        s.wf(),
        0 <= i < s.records().len(),
        0 <= j < s.records().len(),
        s.records()[i].address() == s.records()[j].address(),
    ensures
        i == j,
{
    crate::store::lemma_record_unique(s.records(), i, j);
}

} // verus!

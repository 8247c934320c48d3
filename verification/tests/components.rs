use escrow::error::EscrowError;
use escrow::ledger::AccountRef;
use escrow::ledger::Ledger;
use escrow::state::Authority;
use escrow::state::EscrowAddress;
use escrow::state::EscrowState;
use escrow::state::authority_for;
use escrow::state::derive_address;
use escrow::store::RecordStore;

fn key(owner: u64, mint: u64) -> AccountRef {
    AccountRef { owner: Authority::Key(owner), mint }
}

#[test]
fn derive_address_is_deterministic_and_distinct() {
    let a = derive_address(1, 2);
    assert_eq!(a, derive_address(1, 2));
    assert_eq!(a, EscrowAddress { maker: 1, seed: 2 });
    assert_ne!(a, derive_address(1, 3));
    assert_ne!(a, derive_address(2, 2));
    assert_eq!(authority_for(a), Authority::Derived(a));
    assert_ne!(authority_for(a), Authority::Key(1));
}

#[test]
fn provision_is_idempotent() {
    let mut l = Ledger::new();
    let r = l.provision_holding_account(Authority::Key(1), 10);
    l.mint_to(Authority::Key(1), 10, 5);
    let again = l.provision_holding_account(Authority::Key(1), 10);
    assert_eq!(r, again);
    assert_eq!(l.balance_of(r), 5);
}

#[test]
fn transfer_moves_funds_exactly() {
    let mut l = Ledger::new();
    l.provision_holding_account(Authority::Key(1), 10);
    l.provision_holding_account(Authority::Key(2), 10);
    l.mint_to(Authority::Key(1), 10, 100);
    assert_eq!(l.transfer(key(1, 10), key(2, 10), Authority::Key(1), 30, 10), Ok(()));
    assert_eq!(l.balance_of(key(1, 10)), 70);
    assert_eq!(l.balance_of(key(2, 10)), 30);
    assert_eq!(l.total_supply(10), 100);
}

#[test]
fn transfer_asset_type_mismatch() {
    let mut l = Ledger::new();
    l.provision_holding_account(Authority::Key(1), 10);
    l.provision_holding_account(Authority::Key(2), 20);
    l.mint_to(Authority::Key(1), 10, 5);
    assert_eq!(
        l.transfer(key(1, 10), key(2, 20), Authority::Key(1), 1, 10),
        Err(EscrowError::AssetTypeMismatch)
    );
    assert_eq!(l.balance_of(key(1, 10)), 5);
}

#[test]
fn transfer_needs_owner_authority() {
    let mut l = Ledger::new();
    l.provision_holding_account(Authority::Key(1), 10);
    l.provision_holding_account(Authority::Key(2), 10);
    l.mint_to(Authority::Key(1), 10, 5);
    assert_eq!(
        l.transfer(key(1, 10), key(2, 10), Authority::Key(2), 1, 10),
        Err(EscrowError::Unauthorized)
    );
    assert_eq!(l.balance_of(key(1, 10)), 5);
    assert_eq!(l.balance_of(key(2, 10)), 0);
}

#[test]
fn transfer_from_missing_account_not_found() {
    let mut l = Ledger::new();
    l.provision_holding_account(Authority::Key(2), 10);
    assert_eq!(
        l.transfer(key(1, 10), key(2, 10), Authority::Key(1), 0, 10),
        Err(EscrowError::NotFound)
    );
}

#[test]
fn transfer_over_balance_insufficient() {
    let mut l = Ledger::new();
    l.provision_holding_account(Authority::Key(1), 10);
    l.provision_holding_account(Authority::Key(2), 10);
    l.mint_to(Authority::Key(1), 10, 5);
    assert_eq!(
        l.transfer(key(1, 10), key(2, 10), Authority::Key(1), 6, 10),
        Err(EscrowError::InsufficientFunds)
    );
    assert_eq!(l.balance_of(key(1, 10)), 5);
}

#[test]
fn close_refuses_non_empty_account() {
    let mut l = Ledger::new();
    l.provision_holding_account(Authority::Key(1), 10);
    l.mint_to(Authority::Key(1), 10, 1);
    assert_eq!(
        l.close_account(key(1, 10), Authority::Key(1), Authority::Key(1)),
        Err(EscrowError::NonZeroBalance)
    );
    assert!(l.has_account(key(1, 10)));
}

#[test]
fn close_needs_owner_authority() {
    let mut l = Ledger::new();
    l.provision_holding_account(Authority::Key(1), 10);
    assert_eq!(
        l.close_account(key(1, 10), Authority::Key(2), Authority::Key(1)),
        Err(EscrowError::Unauthorized)
    );
    assert_eq!(
        l.close_account(key(1, 10), Authority::Key(1), Authority::Key(1)),
        Ok(())
    );
    assert!(!l.has_account(key(1, 10)));
    assert_eq!(
        l.close_account(key(1, 10), Authority::Key(1), Authority::Key(1)),
        Err(EscrowError::NotFound)
    );
}

#[test]
fn store_create_read_delete() {
    let mut s = RecordStore::new();
    let rec = EscrowState {
        seed: 3,
        maker: 1,
        mint_a: 10,
        mint_b: 20,
        amount_required: 50,
        escrow_bump: escrow::state::CANONICAL_BUMP,
    };
    let addr = derive_address(1, 3);
    assert_eq!(s.read(addr), Err(EscrowError::NotFound));
    assert_eq!(s.create(rec), Ok(()));
    assert!(s.contains(addr));
    assert_eq!(s.read(addr), Ok(rec));
    assert_eq!(s.create(rec), Err(EscrowError::AlreadyExists));
    assert_eq!(s.delete(addr), Ok(()));
    assert!(!s.contains(addr));
    assert_eq!(s.delete(addr), Err(EscrowError::NotFound));
}

#[test]
fn vault_balances_count_toward_supply() {
    let mut e = escrow::engine::Escrow::new();
    e.mint_to(1, 10, 40);
    let addr = e.initialize(1, 1, 10, 20, 7, 25).unwrap();
    // 25 sits in the vault, 15 with the maker: the supply counts both.
    assert_eq!(e.vault_balance(addr, 10), 25);
    assert_eq!(e.balance_of(1, 10), 15);
    assert_eq!(e.total_supply(10), 40);
}

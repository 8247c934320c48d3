use escrow::engine::Escrow;
use escrow::error::EscrowError;
use escrow::state::EscrowAddress;

const MINT_A: u64 = 10;
const MINT_B: u64 = 20;
const MAKER: u64 = 1;
const TAKER: u64 = 2;

#[test]
fn settle_end_to_end() {
    // Maker opens with seed=1, deposits 100 of asset a, requires 50 of
    // asset b; a taker holding 60 of asset b settles.
    let mut e = Escrow::new();
    e.mint_to(MAKER, MINT_A, 100);
    e.mint_to(TAKER, MINT_B, 60);
    let addr = e.initialize(MAKER, 1, MINT_A, MINT_B, 50, 100).unwrap();
    assert_eq!(addr, EscrowAddress { maker: MAKER, seed: 1 });
    assert_eq!(e.vault_balance(addr, MINT_A), 100);
    assert_eq!(e.balance_of(MAKER, MINT_A), 0);

    assert_eq!(e.exchange(TAKER, addr, MINT_A, MINT_B), Ok(()));
    // The taker receives the vault's entire balance, which exceeds the
    // required amount here by construction of open.
    assert_eq!(e.balance_of(TAKER, MINT_A), 100);
    assert_eq!(e.balance_of(MAKER, MINT_B), 50);
    assert_eq!(e.balance_of(TAKER, MINT_B), 10);
    assert!(!e.has_escrow(addr));
    assert!(!e.has_vault(addr, MINT_A));

    // A second settle on the same address finds nothing.
    assert_eq!(e.exchange(TAKER, addr, MINT_A, MINT_B), Err(EscrowError::NotFound));
    assert_eq!(e.balance_of(TAKER, MINT_A), 100);
}

#[test]
fn cancel_end_to_end() {
    // Maker opens with seed=2, deposits 10, then cancels before any taker
    // acts: the balance returns in full, record and vault are gone.
    let mut e = Escrow::new();
    e.mint_to(MAKER, MINT_A, 10);
    let addr = e.initialize(MAKER, 2, MINT_A, MINT_B, 5, 10).unwrap();
    assert_eq!(e.balance_of(MAKER, MINT_A), 0);
    assert_eq!(e.vault_balance(addr, MINT_A), 10);

    assert_eq!(e.refund(MAKER, addr), Ok(()));
    assert_eq!(e.balance_of(MAKER, MINT_A), 10);
    assert!(!e.has_escrow(addr));
    assert!(!e.has_vault(addr, MINT_A));

    // A second cancel finds nothing.
    assert_eq!(e.refund(MAKER, addr), Err(EscrowError::NotFound));
}

#[test]
fn open_on_occupied_address_fails() {
    let mut e = Escrow::new();
    e.mint_to(MAKER, MINT_A, 100);
    let addr = e.initialize(MAKER, 7, MINT_A, MINT_B, 50, 30).unwrap();
    // The same maker reusing the seed is refused, whatever the other inputs.
    assert_eq!(
        e.initialize(MAKER, 7, MINT_A, MINT_B, 1, 1),
        Err(EscrowError::AlreadyExists)
    );
    assert_eq!(e.vault_balance(addr, MINT_A), 30);
    // Another maker may use the same seed: the namespaces are disjoint.
    e.mint_to(3, MINT_A, 5);
    let other = e.initialize(3, 7, MINT_A, MINT_B, 50, 5).unwrap();
    assert_ne!(addr, other);
    assert_eq!(e.vault_balance(other, MINT_A), 5);
}

#[test]
fn open_without_funds_fails() {
    let mut e = Escrow::new();
    e.mint_to(MAKER, MINT_A, 99);
    assert_eq!(
        e.initialize(MAKER, 1, MINT_A, MINT_B, 50, 100),
        Err(EscrowError::InsufficientFunds)
    );
    assert!(!e.has_escrow(EscrowAddress { maker: MAKER, seed: 1 }));
    assert_eq!(e.balance_of(MAKER, MINT_A), 99);
}

#[test]
fn settle_conserves_every_supply() {
    let mut e = Escrow::new();
    e.mint_to(MAKER, MINT_A, 100);
    e.mint_to(TAKER, MINT_B, 60);
    let addr = e.initialize(MAKER, 1, MINT_A, MINT_B, 50, 100).unwrap();
    let supply_a = e.total_supply(MINT_A);
    let supply_b = e.total_supply(MINT_B);
    assert_eq!(e.exchange(TAKER, addr, MINT_A, MINT_B), Ok(()));
    // No minting and no burning: both supplies are unchanged, and the vault
    // is empty (gone) after settlement.
    assert_eq!(e.total_supply(MINT_A), supply_a);
    assert_eq!(e.total_supply(MINT_B), supply_b);
    assert_eq!(e.vault_balance(addr, MINT_A), 0);
}

#[test]
fn cancel_by_stranger_is_unauthorized() {
    let mut e = Escrow::new();
    e.mint_to(MAKER, MINT_A, 40);
    let addr = e.initialize(MAKER, 3, MINT_A, MINT_B, 50, 40).unwrap();
    assert_eq!(e.refund(TAKER, addr), Err(EscrowError::Unauthorized));
    // The vault and the record are untouched.
    assert_eq!(e.vault_balance(addr, MINT_A), 40);
    assert!(e.has_escrow(addr));
    assert_eq!(e.balance_of(TAKER, MINT_A), 0);
}

#[test]
fn settle_below_required_is_gated() {
    let mut e = Escrow::new();
    e.mint_to(MAKER, MINT_A, 100);
    e.mint_to(TAKER, MINT_B, 40);
    let addr = e.initialize(MAKER, 1, MINT_A, MINT_B, 50, 100).unwrap();
    assert_eq!(
        e.exchange(TAKER, addr, MINT_A, MINT_B),
        Err(EscrowError::EscrowInsufficientFunds)
    );
    // The escrow remains open and unchanged, so a later attempt with
    // sufficient funds succeeds.
    assert!(e.has_escrow(addr));
    assert_eq!(e.vault_balance(addr, MINT_A), 100);
    assert_eq!(e.balance_of(TAKER, MINT_B), 40);
    e.mint_to(TAKER, MINT_B, 10);
    assert_eq!(e.exchange(TAKER, addr, MINT_A, MINT_B), Ok(()));
    assert_eq!(e.balance_of(TAKER, MINT_A), 100);
}

#[test]
fn settle_with_wrong_asset_types_is_mismatch() {
    let mut e = Escrow::new();
    e.mint_to(MAKER, MINT_A, 100);
    e.mint_to(TAKER, MINT_B, 60);
    let addr = e.initialize(MAKER, 1, MINT_A, MINT_B, 50, 100).unwrap();
    assert_eq!(e.exchange(TAKER, addr, MINT_B, MINT_B), Err(EscrowError::RecordMismatch));
    assert_eq!(e.exchange(TAKER, addr, MINT_A, MINT_A), Err(EscrowError::RecordMismatch));
    // Nothing moved.
    assert_eq!(e.vault_balance(addr, MINT_A), 100);
    assert_eq!(e.balance_of(TAKER, MINT_B), 60);
}

#[test]
fn settle_on_unknown_address_not_found() {
    let mut e = Escrow::new();
    let addr = EscrowAddress { maker: 9, seed: 9 };
    assert_eq!(e.exchange(TAKER, addr, MINT_A, MINT_B), Err(EscrowError::NotFound));
    assert_eq!(e.refund(9, addr), Err(EscrowError::NotFound));
}

#[test]
fn record_fields_are_fixed_at_open() {
    let mut e = Escrow::new();
    e.mint_to(MAKER, MINT_A, 25);
    let addr = e.initialize(MAKER, 4, MINT_A, MINT_B, 17, 25).unwrap();
    let rec = e.read_escrow(addr).unwrap();
    assert_eq!(rec.seed, 4);
    assert_eq!(rec.maker, MAKER);
    assert_eq!(rec.mint_a, MINT_A);
    assert_eq!(rec.mint_b, MINT_B);
    assert_eq!(rec.amount_required, 17);
    assert_eq!(rec.escrow_bump, escrow::state::CANONICAL_BUMP);
}

#[test]
fn settle_with_zero_required_needs_no_taker_funds() {
    // A maker may demand nothing; a taker with no holding account at all
    // still settles and receives the deposit.
    let mut e = Escrow::new();
    e.mint_to(MAKER, MINT_A, 8);
    let addr = e.initialize(MAKER, 5, MINT_A, MINT_B, 0, 8).unwrap();
    assert_eq!(e.exchange(TAKER, addr, MINT_A, MINT_B), Ok(()));
    assert_eq!(e.balance_of(TAKER, MINT_A), 8);
    assert_eq!(e.balance_of(MAKER, MINT_B), 0);
    assert!(!e.has_escrow(addr));
}

#[test]
fn full_supply_round_trip() {
    // The entire 64-bit supply of an asset can sit in one vault and come
    // back out on cancel.
    let mut e = Escrow::new();
    e.mint_to(MAKER, MINT_A, u64::MAX);
    let addr = e.initialize(MAKER, 6, MINT_A, MINT_B, 1, u64::MAX).unwrap();
    assert_eq!(e.vault_balance(addr, MINT_A), u64::MAX);
    assert_eq!(e.refund(MAKER, addr), Ok(()));
    assert_eq!(e.balance_of(MAKER, MINT_A), u64::MAX);
    assert_eq!(e.total_supply(MINT_A), u64::MAX);
}

#[test]
fn two_escrows_settle_independently() {
    let mut e = Escrow::new();
    e.mint_to(MAKER, MINT_A, 30);
    e.mint_to(TAKER, MINT_B, 30);
    let first = e.initialize(MAKER, 1, MINT_A, MINT_B, 10, 12).unwrap();
    let second = e.initialize(MAKER, 2, MINT_A, MINT_B, 20, 18).unwrap();
    assert_eq!(e.exchange(TAKER, first, MINT_A, MINT_B), Ok(()));
    assert!(e.has_escrow(second));
    assert_eq!(e.vault_balance(second, MINT_A), 18);
    assert_eq!(e.balance_of(TAKER, MINT_A), 12);
    assert_eq!(e.exchange(TAKER, second, MINT_A, MINT_B), Ok(()));
    assert_eq!(e.balance_of(TAKER, MINT_A), 30);
    assert_eq!(e.balance_of(MAKER, MINT_B), 30);
    assert_eq!(e.balance_of(TAKER, MINT_B), 0);
}

#[test]
fn settle_when_both_assets_are_the_same_mint() {
    // An escrow may offer and demand the same asset type: the taker
    // receives the vault's 30 and pays the required 50 in one mint.
    let mut e = Escrow::new();
    e.mint_to(MAKER, MINT_A, 30);
    e.mint_to(TAKER, MINT_A, 60);
    let addr = e.initialize(MAKER, 1, MINT_A, MINT_A, 50, 30).unwrap();
    assert_eq!(e.exchange(TAKER, addr, MINT_A, MINT_A), Ok(()));
    assert_eq!(e.balance_of(TAKER, MINT_A), 40);
    assert_eq!(e.balance_of(MAKER, MINT_A), 50);
    assert_eq!(e.total_supply(MINT_A), 90);
    assert!(!e.has_escrow(addr));
}

#[test]
fn maker_may_settle_their_own_escrow() {
    // A taker identical to the maker recovers the deposit and pays the
    // required amount to themselves: a net round trip.
    let mut e = Escrow::new();
    e.mint_to(MAKER, MINT_A, 100);
    e.mint_to(MAKER, MINT_B, 50);
    let addr = e.initialize(MAKER, 1, MINT_A, MINT_B, 50, 100).unwrap();
    assert_eq!(e.exchange(MAKER, addr, MINT_A, MINT_B), Ok(()));
    assert_eq!(e.balance_of(MAKER, MINT_A), 100);
    assert_eq!(e.balance_of(MAKER, MINT_B), 50);
    assert!(!e.has_escrow(addr));
    assert!(!e.has_vault(addr, MINT_A));
}

#[test]
fn unknown_vault_reads_as_absent_and_empty() {
    let e = Escrow::new();
    let addr = EscrowAddress { maker: 5, seed: 5 };
    assert!(!e.has_vault(addr, MINT_A));
    assert_eq!(e.vault_balance(addr, MINT_A), 0);
    assert_eq!(e.total_supply(MINT_A), 0);
}

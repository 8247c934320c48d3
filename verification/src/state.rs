use vstd::prelude::*;

verus! {

/// Canonical derivation parameter marking the record's address as having no
/// externally held key: the first off-curve candidate in the derivation
/// search, fixed here so the whole namespace of derived authorities is
/// keyless by construction.
pub const CANONICAL_BUMP: u8 = 255;

/// Address of an escrow record, a pure function of the maker's identity and
/// the maker-chosen seed. Storage is keyed directly by this pair, so the
/// derivation is collision-free by construction.
#[derive(Clone, Copy, Debug, PartialEq, Eq, Structural)]
pub struct EscrowAddress {
    pub maker: u64,
    pub seed: u64,
}

/// A signing authority recognised by the ledger. `Key` is an identity backed
/// by an externally held key (a maker or a taker); `Derived` is the keyless
/// authority tied to one escrow record's address, reconstructible only from
/// that record's derivation inputs.
#[derive(Clone, Copy, Debug, PartialEq, Eq, Structural)]
pub enum Authority {
    Key(u64),
    Derived(EscrowAddress),
}

/// The durable descriptor of one open escrow. Immutable after creation: only
/// its existence is ever toggled, by open on one side and settle or cancel on
/// the other.
#[derive(Clone, Copy, Debug, PartialEq, Eq, Structural)]
pub struct EscrowState {
    /// Maker-chosen nonce; with `maker` it derives the record's address.
    pub seed: u64,
    /// Identity that opened the escrow and sole beneficiary of a cancel.
    pub maker: u64,
    /// Asset type held in the vault, offered by the maker.
    pub mint_a: u64,
    /// Asset type the maker demands in return.
    pub mint_b: u64,
    /// Exact quantity of `mint_b` a taker must supply to settle.
    pub amount_required: u64,
    /// Derivation parameter; always [`CANONICAL_BUMP`] for an open record.
    pub escrow_bump: u8,
}

impl EscrowState {
    /// The address this record lives at.
    pub open spec fn address(self) -> EscrowAddress {
        EscrowAddress { maker: self.maker, seed: self.seed }
    }
}

/// Deterministic addressing: the record's address is a pure function of
/// (maker identity, seed).
pub fn derive_address(maker: u64, seed: u64) -> (r: EscrowAddress)
    ensures
        r == (EscrowAddress { maker, seed }),
{
    EscrowAddress { maker, seed }
}

/// The vault authority tied to an escrow address: controlled only by code
/// that knows the address's derivation inputs, never by an external key.
pub fn authority_for(escrow_address: EscrowAddress) -> (r: Authority)
    ensures
        r == Authority::Derived(escrow_address),
{
    Authority::Derived(escrow_address)
}

/// Address derivation is injective: two (maker, seed) pairs share an address
/// exactly when they are the same pair, so one maker can never collide with
/// another and one seed can never collide with another of the same maker.
pub proof fn lemma_derive_address_injective(m1: u64, s1: u64, m2: u64, s2: u64)
    ensures
        (EscrowAddress { maker: m1, seed: s1 }) == (EscrowAddress { maker: m2, seed: s2 })
            <==> (m1 == m2 && s1 == s2),
{
}

} // verus!

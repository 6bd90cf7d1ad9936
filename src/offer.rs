use vstd::prelude::*;

verus! {

/// Where an offer stands in its lifecycle.
#[derive(Clone, Copy, Debug, PartialEq, Eq, Structural)]
pub enum OfferState {
    /// Created by the seller; the buyer has not deposited yet.
    Open,
    /// The buyer deposited; the seller may withdraw the deposit.
    Funded,
    /// The seller took the deposit.
    Withdrawn,
}

/// Why an operation on the escrow was rejected. A rejected operation changes
/// nothing.
#[derive(Clone, Copy, Debug, PartialEq, Eq, Structural)]
pub enum OfferError {
    /// The seller already holds an offer.
    SellerHasOffer,
    /// The derived address is taken by another offer.
    AddressInUse,
    /// No offer was created for the derived address.
    AddressNotRegistered,
    /// The attached deposit is below the offer's amount.
    InsufficientDeposit,
    /// Signing an arbitrary payload is reserved to the owner.
    OwnerOnly,
    /// Signing an arbitrary payload asks for a larger deposit.
    BelowArbitraryCost,
    /// The payload is not an even number of hex digits.
    InvalidPayload,
    /// The buyer has not deposited: there is nothing to withdraw.
    NotDeposited,
    /// The deposit was already withdrawn.
    NotAvailable,
}

/// An offer as stored, keyed by its derived address.
pub struct Offer {
    pub derived_address: String,
    pub seller: String,
    pub expected_amount: u128,
    pub state: OfferState,
}

/// What an offer holds besides its key.
pub struct OfferView {
    pub seller: Seq<char>,
    pub expected_amount: u128,
    pub state: OfferState,
}

impl OfferView {
    /// The buyer's deposit is held for the seller.
    pub open spec fn buyer_deposited(self) -> bool {
        self.state == OfferState::Funded
    }

    /// The seller may still withdraw.
    pub open spec fn withdraw_available(self) -> bool {
        self.state == OfferState::Funded
    }

    /// The offer is open or funded: it still binds its seller.
    pub open spec fn is_active(self) -> bool {
        self.state != OfferState::Withdrawn
    }

    /// The same offer in another state.
    pub open spec fn with_state(self, state: OfferState) -> OfferView {
        OfferView { seller: self.seller, expected_amount: self.expected_amount, state }
    }
}

impl View for Offer {
    type V = OfferView;

    open spec fn view(&self) -> OfferView {
        OfferView { seller: self.seller@, expected_amount: self.expected_amount, state: self.state }
    }
}

impl Offer {
    /// The buyer's deposit is held for the seller.
    pub fn buyer_deposited(&self) -> (r: bool)
        ensures
            r == self@.buyer_deposited(),
    {
        self.state == OfferState::Funded
    }

    /// The seller may still withdraw.
    pub fn withdraw_available(&self) -> (r: bool)
        ensures
            r == self@.withdraw_available(),
    {
        self.state == OfferState::Funded
    }

    /// A copy of the offer in another state.
    pub fn with_state(&self, state: OfferState) -> (r: Offer)
        ensures
            r@ == self@.with_state(state),
            r.derived_address@ == self.derived_address@,
    {
        Offer {
            derived_address: self.derived_address.clone(),
            seller: self.seller.clone(),
            expected_amount: self.expected_amount,
            state,
        }
    }
}

/// The record that a seller holds the offer at a derived address.
pub struct SellerLock {
    pub seller: String,
    pub derived_address: String,
}

} // verus!

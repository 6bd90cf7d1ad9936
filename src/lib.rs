//! Escrow of offers that pair a derived address on an external chain with a
//! deposit on the native ledger, and preparation of the payload handed to a
//! threshold signer once an offer is funded.
//!
//! The ledger's context (the caller, the attached deposit, the owner account)
//! comes in as plain values; what the ledger must do afterwards (pay a
//! seller, send a signing request) comes back as plain values too.
mod contract;
mod laws;
mod offer;
mod payload;

pub use contract::{
    ARBITRARY_SIGN_COST, Contract, ContractView, SIGNER_ACCOUNT_ID, SIGN_GAS_TGAS, SignPolicy,
    SignRequest, Transfer, active_offers_locked, create_offer_step, distinct_addresses,
    distinct_sellers, lock_table, locks_agree, locks_name_offers, offer_table, policy_refusal,
    sign_step, valid_parts, withdraw_step,
};
pub use laws::{
    address_exclusivity, deposit_gate, funding_idempotent, locked_seller_cannot_create,
    operations_keep_locks_consistent, seller_exclusivity, seller_lock_held_until_withdrawal,
    signed_payload_is_reversed_digest, withdraw_needs_deposit, withdraw_one_shot,
    withdrawal_releases_seller,
};
pub use offer::{Offer, OfferError, OfferState, OfferView, SellerLock};
pub use payload::{
    PUBLIC_METHOD_SELECTOR, contains_str, contains_text, hex_bytes, hex_digit_value, is_hex_digit,
    is_hex_text, is_public_payload, is_public_text, keccak256_of, reverse_digest, reversed,
    signing_payload, signing_payload_of,
};
